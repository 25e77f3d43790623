//! Header-safe rendering of file names for downloads: the legacy quoted
//! form with unsafe characters dropped, and the percent-encoded form.

use vstd::prelude::*;

verus! {

/// The percent-encoding of a string with every non-alphanumeric byte
/// escaped: a fixed function of the characters alone.
pub uninterp spec fn percent_encoded_of(s: Seq<char>) -> Seq<char>;

/// Relies on `percent_encoding::utf8_percent_encode` with
/// `NON_ALPHANUMERIC`: the encoding depends on the input text alone.
#[verifier::external_body]
fn percent_encode_filename(name: &str) -> (r: String)
    ensures
        r@ == percent_encoded_of(name@),
{
    percent_encoding::utf8_percent_encode(name, percent_encoding::NON_ALPHANUMERIC).to_string()
}

/// Is `c` unsafe inside a quoted header parameter?
pub open spec fn header_unsafe(c: char) -> bool {
    c == '"' || c == '\r' || c == '\n'
}

/// The text from position `i` on with unsafe characters dropped.
pub open spec fn sanitize_tail(s: Seq<char>, i: int) -> Seq<char>
    decreases s.len() - i,
{
    if i < 0 || i >= s.len() {
        Seq::empty()
    } else if header_unsafe(s[i]) {
        sanitize_tail(s, i + 1)
    } else {
        seq![s[i]] + sanitize_tail(s, i + 1)
    }
}

/// The value of a download's content-disposition header: the quoted
/// legacy name with quotes and line breaks removed, then the
/// percent-encoded modern form.
pub open spec fn content_disposition_of(name: Seq<char>, attachment: bool) -> Seq<char> {
    (if attachment {
        "attachment; filename=\""@
    } else {
        "inline; filename=\""@
    }) + sanitize_tail(name, 0) + "\"; filename*=UTF-8''"@ + percent_encoded_of(name)
}

/// Builds the content-disposition header value for a download of `name`.
pub fn content_disposition(name: &str, attachment: bool) -> (r: String)
    ensures
        r@ == content_disposition_of(name@, attachment),
{
    let mut out: String = if attachment {
        "attachment; filename=\"".to_owned()
    } else {
        "inline; filename=\"".to_owned()
    };
    let n = name.unicode_len();
    let ghost sv = name@;
    let ghost head = out@;
    let mut i: usize = 0;
    while i < n
        invariant
            sv == name@,
            i <= n,
            n == sv.len(),
            head + sanitize_tail(sv, 0) =~= out@ + sanitize_tail(sv, i as int),
        decreases n - i,
    {
        let c = name.get_char(i);
        if !(c == '"' || c == '\r' || c == '\n') {
            out.push(c);
            proof {
                assert(out@ =~= out@.drop_last() + seq![c]);
                assert((out@.drop_last() + seq![c]) + sanitize_tail(sv, i as int + 1)
                    =~= out@.drop_last() + (seq![c] + sanitize_tail(sv, i as int + 1)));
            }
        }
        i = i + 1;
    }
    proof {
        assert(sanitize_tail(sv, n as int) =~= Seq::<char>::empty());
        assert(out@ =~= head + sanitize_tail(sv, 0));
    }
    out.append("\"; filename*=UTF-8''");
    let enc = percent_encode_filename(name);
    out.append(enc.as_str());
    out
}

} // verus!
