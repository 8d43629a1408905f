//! Request building: the registry's paths and query strings, and the one
//! shared credential every request carries.

use vstd::prelude::*;

use crate::text::{chars_to_string, dec_digits, find_at, find_char, push_dec_digits, str_chars};

verus! {

/// The listing request's path and query: page size and offset, ordered by
/// identifier.
pub open spec fn spec_listing_path(offset: int, limit: int) -> Seq<char> {
    "users?order_by=primary_id&limit="@ + dec_digits(limit as nat) + "&offset="@ + dec_digits(
        offset as nat,
    )
}

pub fn listing_path(offset: usize, limit: usize) -> (r: String)
    ensures
        r@ == spec_listing_path(offset as int, limit as int),
{
    let mut out: String = String::new();
    out.append("users?order_by=primary_id&limit=");
    let mut digits: Vec<char> = Vec::new();
    push_dec_digits(&mut digits, limit as u64);
    let ds = chars_to_string(&digits);
    out.append(ds.as_str());
    out.append("&offset=");
    let mut digits2: Vec<char> = Vec::new();
    push_dec_digits(&mut digits2, offset as u64);
    let ds2 = chars_to_string(&digits2);
    out.append(ds2.as_str());
    proof {
        assert((limit as u64) as nat == limit as nat);
        assert((offset as u64) as nat == offset as nat);
        assert(out@ =~= spec_listing_path(offset as int, limit as int));
    }
    out
}

/// One identifier character as it stands in a path: the reserved `#` is
/// percent-encoded, everything else is verbatim.
pub open spec fn path_char(c: char) -> Seq<char> {
    if c == '#' {
        "%23"@
    } else {
        seq![c]
    }
}

/// An identifier as it stands in a path.
pub open spec fn spec_encode_id(s: Seq<char>) -> Seq<char>
    decreases s.len(),
{
    if s.len() == 0 {
        Seq::empty()
    } else {
        spec_encode_id(s.drop_last()) + path_char(s.last())
    }
}

/// The single-record path for an identifier, its reserved characters
/// percent-encoded.
pub fn user_record_path(id: &str) -> (r: String)
    ensures
        r@ == "users/"@ + spec_encode_id(id@),
{
    let mut out: String = String::new();
    out.append("users/");
    append_encoded_id(&mut out, id);
    out
}

/// The single-record path asking for the fee balance too.
pub fn user_record_path_with_fees(id: &str) -> (r: String)
    ensures
        r@ == "users/"@ + spec_encode_id(id@) + "?expand=fees"@,
{
    let mut out: String = String::new();
    out.append("users/");
    append_encoded_id(&mut out, id);
    out.append("?expand=fees");
    proof {
        assert(out@ =~= "users/"@ + spec_encode_id(id@) + "?expand=fees"@);
    }
    out
}

fn append_encoded_id(out: &mut String, id: &str)
    ensures
        final(out)@ == old(out)@ + spec_encode_id(id@),
{
    let n: usize = id.unicode_len();
    let mut i: usize = 0;
    proof {
        assert(id@.take(0) =~= Seq::<char>::empty());
        assert(spec_encode_id(id@.take(0)) =~= Seq::<char>::empty());
        assert(old(out)@ + Seq::<char>::empty() =~= old(out)@);
    }
    while i < n
        invariant
            i <= n,
            n == id@.len(),
            out@ == old(out)@ + spec_encode_id(id@.take(i as int)),
        decreases n - i,
    {
        let c = id.get_char(i);
        if c == '#' {
            out.append("%23");
        } else {
            let mut one: Vec<char> = Vec::new();
            one.push(c);
            let cs = chars_to_string(&one);
            out.append(cs.as_str());
            assert(cs@ =~= seq![c]);
        }
        proof {
            assert(id@.take(i as int + 1).drop_last() =~= id@.take(i as int));
            assert(id@.take(i as int + 1).last() == id@[i as int]);
            assert(out@ =~= old(out)@ + spec_encode_id(id@.take(i as int + 1)));
        }
        i += 1;
    }
    proof {
        assert(id@.take(n as int) =~= id@);
    }
}

/// The host for a region's registry endpoint.
pub fn base_url_for_region(region: &str) -> (r: String)
    ensures
        r@ == "https://api-"@ + region@ + ".hosted.exlibrisgroup.com/almaws/v1/"@,
{
    let mut out: String = String::new();
    out.append("https://api-");
    out.append(region);
    out.append(".hosted.exlibrisgroup.com/almaws/v1/");
    proof {
        assert(out@ =~= "https://api-"@ + region@ + ".hosted.exlibrisgroup.com/almaws/v1/"@);
    }
    out
}

/// The path with the shared credential appended: as another query parameter
/// when a query exists, as the first one otherwise.
pub open spec fn spec_with_api_key(path: Seq<char>, key: Seq<char>) -> Seq<char> {
    if find_at(path, '?', 0) < path.len() {
        path + "&apikey="@ + key
    } else {
        path + "?apikey="@ + key
    }
}

pub fn with_api_key(path: &str, key: &str) -> (r: String)
    ensures
        r@ == spec_with_api_key(path@, key@),
{
    let chars = str_chars(path);
    let q = find_char(&chars, '?', 0);
    let mut out: String = String::new();
    out.append(path);
    if q < chars.len() {
        out.append("&apikey=");
    } else {
        out.append("?apikey=");
    }
    out.append(key);
    proof {
        crate::text::lemma_find_at(path@, '?', 0);
        if q < chars@.len() {
            assert(out@ =~= path@ + "&apikey="@ + key@);
        } else {
            assert(out@ =~= path@ + "?apikey="@ + key@);
        }
    }
    out
}

} // verus!
