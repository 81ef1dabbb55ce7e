use vstd::prelude::*;

verus! {

/// What a complete gzip stream inflates to. The result of inflating is a
/// function of the compressed bytes alone.
pub uninterp spec fn gunzip_of(b: Seq<u8>) -> Seq<u8>;

/// Relies on flate2's read::GzDecoder over a byte slice, drained with
/// read_to_end: inflates one complete gzip stream, or fails on data that is
/// not one.
#[verifier::external_body]
fn gunzip(data: &Vec<u8>) -> (r: Option<Vec<u8>>)
    ensures
        r matches Some(v) ==> v@ == gunzip_of(data@),
{
    let mut d = flate2::read::GzDecoder::new(data.as_slice());
    let mut out: Vec<u8> = Vec::new();
    match std::io::Read::read_to_end(&mut d, &mut out) {
        Ok(_) => Some(out),
        Err(_) => None,
    }
}

/// The input name ends in ".gz".
pub open spec fn name_is_gz(n: Seq<u8>) -> bool {
    n.len() >= 3 && n.subrange(n.len() - 3, n.len() as int) == seq![46u8, 103u8, 122u8]
}

fn ends_with_gz(name: &Vec<u8>) -> (r: bool)
    ensures
        r == name_is_gz(name@),
{
    if name.len() < 3 {
        return false;
    }
    let n = name.len();
    let r = name[n - 3] == 46 && name[n - 2] == 103 && name[n - 1] == 122;
    proof {
        if r {
            assert(name@.subrange(name@.len() - 3, name@.len() as int) =~= seq![
                46u8,
                103u8,
                122u8,
            ]);
        } else {
            assert(name@.subrange(name@.len() - 3, name@.len() as int) !~= seq![
                46u8,
                103u8,
                122u8,
            ]);
        }
    }
    r
}

/// The raw input bytes of the stream under the given name: inflated when the
/// name ends in ".gz", unchanged otherwise. None only for a ".gz" input that
/// does not inflate.
pub fn decode_input(name: &Vec<u8>, data: Vec<u8>) -> (r: Option<Vec<u8>>)
    ensures
        match r {
            Some(v) => if name_is_gz(name@) {
                v@ == gunzip_of(data@)
            } else {
                v@ == data@
            },
            None => name_is_gz(name@),
        },
{
    if ends_with_gz(name) {
        gunzip(&data)
    } else {
        Some(data)
    }
}

} // verus!
