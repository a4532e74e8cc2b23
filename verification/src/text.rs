//! Text helpers: characters of a string, substring search, lowercase and
//! UTF-8 decoding, and window-property text.

use vstd::prelude::*;

verus! {

/// The characters of `s`, in order.
pub fn str_chars(s: &str) -> (v: Vec<char>)
    ensures
        v@ == s@,
{
    let mut v: Vec<char> = Vec::new();
    for c in it: s.chars()
        invariant
            v@ == it.seq().take(it.index()),
    {
        v.push(c);
    }
    proof {
        broadcast use vstd::string::axiom_spec_iter;

        assert(v@ =~= s@);
    }
    v
}

/// `needle` occurs in `hay` as a run of consecutive characters.
pub open spec fn has_substring(hay: Seq<char>, needle: Seq<char>) -> bool {
    exists|i: int| 0 <= i <= hay.len() - needle.len() && #[trigger] hay.subrange(i, i + needle.len()) == needle
}

/// Whether `needle` occurs in `hay`, as `str::contains` with a `&str` pattern.
pub fn contains_str(hay: &str, needle: &str) -> (b: bool)
    ensures
        b == has_substring(hay@, needle@),
{
    let h = str_chars(hay);
    let n = str_chars(needle);
    let hl = h.len();
    let nl = n.len();
    if nl == 0 {
        proof {
            assert(hay@.subrange(0int, 0int + needle@.len()) =~= needle@);
        }
        return true;
    }
    if nl > hl {
        return false;
    }
    let last = hl - nl;
    let mut i: usize = 0;
    while i <= last
        invariant
            h@ == hay@,
            n@ == needle@,
            hl == h@.len(),
            nl == n@.len(),
            0 < nl <= hl,
            last == hl - nl,
            0 <= i <= last + 1,
            forall|k: int| 0 <= k < i ==> #[trigger] h@.subrange(k, k + n@.len()) != n@,
        decreases last + 1 - i,
    {
        let mut j: usize = 0;
        let mut same = true;
        proof {
            assert(h@.subrange(i as int, i as int) =~= n@.subrange(0, 0));
        }
        while j < nl
            invariant
                h@ == hay@,
                n@ == needle@,
                hl == h@.len(),
                nl == n@.len(),
                i + nl <= hl,
                0 <= j <= nl,
                same == (h@.subrange(i as int, i + j) =~= n@.subrange(0, j as int)),
            decreases nl - j,
        {
            let eq = h[i + j] == n[j];
            proof {
                let a = h@.subrange(i as int, i + j);
                let b = n@.subrange(0, j as int);
                let a2 = h@.subrange(i as int, i + j + 1);
                let b2 = n@.subrange(0, j + 1);
                assert(a2 =~= a.push(h@[i + j]));
                assert(b2 =~= b.push(n@[j as int]));
                if same && eq {
                    assert(a2 =~= b2);
                } else if !eq {
                    assert(a2[j as int] != b2[j as int]);
                } else {
                    let k = choose|k: int| 0 <= k < a.len() && a[k] != b[k];
                    assert(a2[k] != b2[k]);
                }
            }
            same = same && eq;
            j = j + 1;
        }
        proof {
            assert(n@.subrange(0, nl as int) =~= n@);
        }
        if same {
            return true;
        }
        i = i + 1;
    }
    false
}

/// The lowercase form of a text, as `str::to_lowercase` gives it.
pub uninterp spec fn lowercase(s: Seq<char>) -> Seq<char>;

/// `str::to_lowercase`: the text with every character mapped to lowercase.
/// The contract says only that the result is `lowercase` of the text's
/// characters; the Unicode case mapping itself is not stated.
#[verifier::external_body]
pub(crate) fn to_lowercase(s: &str) -> (r: String)
    ensures
        r@ == lowercase(s@),
{
    s.to_lowercase()
}

/// The characters that decoding bytes as UTF-8 gives, each invalid sequence
/// replaced by U+FFFD, as `String::from_utf8_lossy` does it.
pub uninterp spec fn utf8_lossy(bytes: Seq<u8>) -> Seq<char>;

/// `String::from_utf8_lossy`, made into an owned `String`. The contract
/// says only that the result is `utf8_lossy` of the bytes; the decoding
/// itself is not stated.
#[verifier::external_body]
pub(crate) fn decode_utf8_lossy(bytes: &[u8]) -> (r: String)
    ensures
        r@ == utf8_lossy(bytes@),
{
    String::from_utf8_lossy(bytes).into_owned()
}

/// `s` without leading and trailing NUL characters.
pub open spec fn trim_nul(s: Seq<char>) -> Seq<char>
    decreases s.len(),
{
    if s.len() > 0 && s[0] == '\0' {
        trim_nul(s.drop_first())
    } else if s.len() > 0 && s.last() == '\0' {
        trim_nul(s.drop_last())
    } else {
        s
    }
}

proof fn lemma_trim_nul_drop_last(s: Seq<char>)
    requires
        s.len() > 0,
        s.last() == '\0',
    ensures
        trim_nul(s) == trim_nul(s.drop_last()),
    decreases s.len(),
{
    if s[0] == '\0' {
        if s.len() == 1 {
            assert(s.drop_first() =~= s.drop_last());
        } else {
            lemma_trim_nul_drop_last(s.drop_first());
            assert(s.drop_first().drop_last() =~= s.drop_last().drop_first());
        }
    }
}

/// Text of a window property or name: the bytes decoded as UTF-8 (invalid
/// sequences replaced), without leading and trailing NULs; `None` when
/// nothing is left.
pub fn property_text(bytes: &[u8]) -> (r: Option<String>)
    ensures
        match r {
            None => trim_nul(utf8_lossy(bytes@)).len() == 0,
            Some(t) => t@ == trim_nul(utf8_lossy(bytes@)) && t@.len() > 0,
        },
{
    let decoded = decode_utf8_lossy(bytes);
    let s: &str = decoded.as_str();
    let chars = str_chars(s);
    let ghost full = chars@;
    let n = chars.len();
    proof {
        assert(full.subrange(0, n as int) =~= full);
    }
    let mut a: usize = 0;
    while a < n && chars[a] == '\0'
        invariant
            0 <= a <= n,
            n == full.len(),
            chars@ == full,
            trim_nul(full) == trim_nul(full.subrange(a as int, n as int)),
        decreases n - a,
    {
        proof {
            assert(full.subrange(a as int, n as int).drop_first() =~= full.subrange(a + 1, n as int));
        }
        a = a + 1;
    }
    let mut b: usize = n;
    while b > a && chars[b - 1] == '\0'
        invariant
            0 <= a <= b <= n,
            n == full.len(),
            chars@ == full,
            a < n ==> full[a as int] != '\0',
            trim_nul(full) == trim_nul(full.subrange(a as int, b as int)),
        decreases b - a,
    {
        proof {
            let t = full.subrange(a as int, b as int);
            lemma_trim_nul_drop_last(t);
            assert(t.drop_last() =~= full.subrange(a as int, b - 1));
        }
        b = b - 1;
    }
    proof {
        let t = full.subrange(a as int, b as int);
        if t.len() > 0 {
            assert(t[0] == full[a as int]);
            assert(t.last() == full[b - 1]);
        }
        assert(trim_nul(t) == t);
    }
    if a == b {
        return None;
    }
    let piece = s.substring_char(a, b);
    Some(piece.to_owned())
}

/// A window name as the X server returns it: the bytes decoded as UTF-8
/// (invalid sequences replaced); `None` when it is empty.
pub fn name_text(bytes: &[u8]) -> (r: Option<String>)
    ensures
        match r {
            None => utf8_lossy(bytes@).len() == 0,
            Some(t) => t@ == utf8_lossy(bytes@) && t@.len() > 0,
        },
{
    let decoded = decode_utf8_lossy(bytes);
    let chars = str_chars(decoded.as_str());
    if chars.len() == 0 {
        None
    } else {
        Some(decoded)
    }
}

} // verus!
