//! Text transformations applied to feed entry bodies.
//!
//! All transformations are stated over character sequences; counting is by
//! Unicode scalar values, never bytes.

use crate::errors::Error;
use vstd::prelude::*;
use vstd::string::StrSliceExecFns;
use vstd::string::StringExecFns;

verus! {

/// Whether a character counts as whitespace for trimming: Unicode's
/// White_Space property, a function of the character alone.
pub uninterp spec fn is_ws(c: char) -> bool;

/// Relies on char::is_whitespace: the Unicode White_Space property of the
/// character, nothing else.
#[verifier::external_body]
pub fn char_is_whitespace(c: char) -> (r: bool)
    ensures
        r == is_ws(c),
{
    c.is_whitespace()
}

/// Relies on String::push: appends the one character to the string.
#[verifier::external_body]
pub fn push_char(s: &mut String, c: char)
    ensures
        final(s)@ == old(s)@.push(c),
{
    s.push(c);
}

/// The characters of a string slice, as a vector.
pub fn chars_of(s: &str) -> (v: Vec<char>)
    ensures
        v@ == s@,
{
    let n = s.unicode_len();
    let mut v: Vec<char> = Vec::new();
    for i in it: 0..n
        invariant
            n == s@.len(),
            v@ =~= s@.take(i as int),
    {
        v.push(s.get_char(i));
        proof {
            assert(v@ =~= s@.take(i + 1));
        }
    }
    proof {
        assert(s@.take(n as int) =~= s@);
    }
    v
}

/// A string holding exactly the given characters.
pub fn string_from_chars(v: &Vec<char>) -> (s: String)
    ensures
        s@ == v@,
{
    let mut s = String::new();
    for i in it: 0..v.len()
        invariant
            s@ =~= v@.take(i as int),
    {
        push_char(&mut s, v[i]);
        proof {
            assert(s@ =~= v@.take(i + 1));
        }
    }
    proof {
        assert(v@.take(v@.len() as int) =~= v@);
    }
    s
}

/// The sequence with its leading whitespace dropped.
pub open spec fn trim_start(s: Seq<char>) -> Seq<char>
    decreases s.len(),
{
    if s.len() > 0 && is_ws(s[0]) {
        trim_start(s.drop_first())
    } else {
        s
    }
}

/// The sequence with its trailing whitespace dropped.
pub open spec fn trim_end(s: Seq<char>) -> Seq<char>
    decreases s.len(),
{
    if s.len() > 0 && is_ws(s.last()) {
        trim_end(s.drop_last())
    } else {
        s
    }
}

/// The sequence with leading and trailing whitespace dropped.
pub open spec fn trim_spec(s: Seq<char>) -> Seq<char> {
    trim_end(trim_start(s))
}

/// Trims whitespace from both ends.
pub fn trim_chars(v: &Vec<char>) -> (r: Vec<char>)
    ensures
        r@ == trim_spec(v@),
{
    let n = v.len();
    let mut lo: usize = 0;
    proof {
        assert(v@.skip(0) =~= v@);
    }
    while lo < n && char_is_whitespace(v[lo])
        invariant
            lo <= n,
            n == v@.len(),
            trim_start(v@) == trim_start(v@.skip(lo as int)),
        decreases n - lo,
    {
        proof {
            assert(v@.skip(lo as int).drop_first() =~= v@.skip(lo + 1));
        }
        lo = lo + 1;
    }
    proof {
        assert(trim_start(v@.skip(lo as int)) == v@.skip(lo as int));
    }
    let ghost w = v@.skip(lo as int);
    let mut hi: usize = n;
    proof {
        assert(w.take(n - lo as int) =~= w);
    }
    while hi > lo && char_is_whitespace(v[hi - 1])
        invariant
            lo <= hi <= n,
            n == v@.len(),
            w == v@.skip(lo as int),
            trim_end(w) == trim_end(w.take(hi - lo as int)),
        decreases hi,
    {
        proof {
            assert(w.take(hi - lo as int).drop_last() =~= w.take(hi - 1 - lo as int));
            assert(w.take(hi - lo as int).last() == v@[hi - 1]);
        }
        hi = hi - 1;
    }
    proof {
        assert(trim_end(w.take(hi - lo as int)) == w.take(hi - lo as int));
    }
    let mut r: Vec<char> = Vec::new();
    for m in it: lo..hi
        invariant
            lo <= hi <= n,
            n == v@.len(),
            r@ =~= v@.subrange(lo as int, m as int),
    {
        r.push(v[m]);
        proof {
            assert(r@ =~= v@.subrange(lo as int, m + 1));
        }
    }
    proof {
        assert(r@ =~= w.take(hi - lo as int));
    }
    r
}

/// The content as delivered: truncated to `max` characters with an ellipsis
/// marker appended when it was longer.
pub open spec fn truncated(s: Seq<char>, max: nat) -> Seq<char> {
    if s.len() > max {
        s.take(max as int) + seq!['.', '.', '.']
    } else {
        s
    }
}

/// Truncates the content to at most `max` characters, marking truncation
/// with an ellipsis.
pub fn truncate_chars(v: &Vec<char>, max: usize) -> (r: Vec<char>)
    ensures
        r@ == truncated(v@, max as nat),
{
    if v.len() > max {
        let mut r: Vec<char> = Vec::new();
        for m in it: 0..max
            invariant
                max < v@.len(),
                r@ =~= v@.take(m as int),
        {
            r.push(v[m]);
            proof {
                assert(r@ =~= v@.take(m + 1));
            }
        }
        r.push('.');
        r.push('.');
        r.push('.');
        proof {
            assert(r@ =~= v@.take(max as int) + seq!['.', '.', '.']);
        }
        r
    } else {
        let mut r: Vec<char> = Vec::new();
        for m in it: 0..v.len()
            invariant
                r@ =~= v@.take(m as int),
        {
            r.push(v[m]);
            proof {
                assert(r@ =~= v@.take(m + 1));
            }
        }
        proof {
            assert(v@.take(v@.len() as int) =~= v@);
        }
        r
    }
}

/// The character of one decimal digit.
pub open spec fn digit_char(d: nat) -> char {
    if d == 0 {
        '0'
    } else if d == 1 {
        '1'
    } else if d == 2 {
        '2'
    } else if d == 3 {
        '3'
    } else if d == 4 {
        '4'
    } else if d == 5 {
        '5'
    } else if d == 6 {
        '6'
    } else if d == 7 {
        '7'
    } else if d == 8 {
        '8'
    } else {
        '9'
    }
}

/// The decimal representation of a number, most significant digit first and
/// without leading zeroes.
pub open spec fn dec_str(n: nat) -> Seq<char>
    decreases n,
{
    if n < 10 {
        seq![digit_char(n)]
    } else {
        dec_str(n / 10).push(digit_char(n % 10))
    }
}

fn digit_char_exec(d: u64) -> (c: char)
    requires
        d < 10,
    ensures
        c == digit_char(d as nat),
{
    if d == 0 {
        '0'
    } else if d == 1 {
        '1'
    } else if d == 2 {
        '2'
    } else if d == 3 {
        '3'
    } else if d == 4 {
        '4'
    } else if d == 5 {
        '5'
    } else if d == 6 {
        '6'
    } else if d == 7 {
        '7'
    } else if d == 8 {
        '8'
    } else {
        '9'
    }
}

/// The decimal digits of a number.
pub fn u64_to_dec_chars(n: u64) -> (v: Vec<char>)
    ensures
        v@ == dec_str(n as nat),
    decreases n,
{
    if n < 10 {
        let mut v: Vec<char> = Vec::new();
        v.push(digit_char_exec(n));
        v
    } else {
        let mut v = u64_to_dec_chars(n / 10);
        v.push(digit_char_exec(n % 10));
        v
    }
}

/// The decimal representation of a number, as a string.
pub fn u64_to_string(n: u64) -> (s: String)
    ensures
        s@ == dec_str(n as nat),
{
    let v = u64_to_dec_chars(n);
    string_from_chars(&v)
}

/// Index of the first '>' in the sequence, if any.
pub open spec fn find_gt(s: Seq<char>) -> Option<int>
    decreases s.len(),
{
    if s.len() == 0 {
        None
    } else if s[0] == '>' {
        Some(0)
    } else {
        match find_gt(s.drop_first()) {
            Some(j) => Some(j + 1),
            None => None,
        }
    }
}

proof fn lemma_find_gt(s: Seq<char>)
    ensures
        match find_gt(s) {
            Some(j) => 0 <= j < s.len() && s[j] == '>' && forall|m: int| 0 <= m < j ==> s[m] != '>',
            None => forall|m: int| 0 <= m < s.len() ==> s[m] != '>',
        },
    decreases s.len(),
{
    if s.len() > 0 && s[0] != '>' {
        lemma_find_gt(s.drop_first());
        match find_gt(s.drop_first()) {
            Some(j) => {
                assert forall|m: int| 0 <= m < j + 1 implies s[m] != '>' by {
                    if m > 0 {
                        assert(s.drop_first()[m - 1] != '>');
                    }
                }
            },
            None => {
                assert forall|m: int| 0 <= m < s.len() implies s[m] != '>' by {
                    if m > 0 {
                        assert(s.drop_first()[m - 1] != '>');
                    }
                }
            },
        }
    }
}

proof fn lemma_find_gt_witness(s: Seq<char>, j: int)
    requires
        0 <= j < s.len(),
        s[j] == '>',
        forall|m: int| 0 <= m < j ==> s[m] != '>',
    ensures
        find_gt(s) == Some(j),
{
    lemma_find_gt(s);
    match find_gt(s) {
        Some(k) => {
            if k < j {
                assert(s[k] != '>');
            }
            if j < k {
                assert(s[j] != '>');
            }
        },
        None => {
            assert(s[j] != '>');
        },
    }
}

#[via_fn]
proof fn strip_markup_decreases(s: Seq<char>) {
    if s.len() > 0 && s[0] != '\n' && s[0] == '<' && find_gt(s.drop_first()) is Some {
        lemma_find_gt(s.drop_first());
    }
}

/// Markup stripping, as the feed sanitiser performs it: each newline is
/// removed, and each '<' with a later '>' is removed together with
/// everything up to and including the nearest such '>'. A '<' with no
/// closing '>' stays.
pub open spec fn strip_markup(s: Seq<char>) -> Seq<char>
    decreases s.len(),
    via strip_markup_decreases
{
    if s.len() == 0 {
        s
    } else if s[0] == '\n' {
        strip_markup(s.drop_first())
    } else if s[0] == '<' && find_gt(s.drop_first()) is Some {
        strip_markup(s.drop_first().skip(find_gt(s.drop_first())->Some_0 + 1))
    } else {
        seq![s[0]] + strip_markup(s.drop_first())
    }
}

/// Strips markup runs and newlines from the characters.
pub fn strip_markup_chars(v: &Vec<char>) -> (r: Vec<char>)
    ensures
        r@ == strip_markup(v@),
{
    let n = v.len();
    let mut out: Vec<char> = Vec::new();
    let mut i: usize = 0;
    proof {
        assert(v@.skip(0) =~= v@);
    }
    while i < n
        invariant
            i <= n,
            n == v@.len(),
            strip_markup(v@) =~= out@ + strip_markup(v@.skip(i as int)),
        decreases n - i,
    {
        let ghost tail = v@.skip(i as int);
        proof {
            assert(tail[0] == v@[i as int]);
            assert(tail.drop_first() =~= v@.skip(i + 1));
        }
        let c = v[i];
        if c == '\n' {
            i = i + 1;
        } else if c == '<' {
            let mut j: usize = i + 1;
            while j < n && v[j] != '>'
                invariant
                    i + 1 <= j <= n,
                    n == v@.len(),
                    forall|m: int| i + 1 <= m < j ==> v@[m] != '>',
                decreases n - j,
            {
                j = j + 1;
            }
            let ghost inner = tail.drop_first();
            if j < n {
                proof {
                    assert(inner[j - i - 1] == v@[j as int]);
                    assert forall|m: int| 0 <= m < j - i - 1 implies inner[m] != '>' by {
                        assert(inner[m] == v@[m + i + 1]);
                    }
                    lemma_find_gt_witness(inner, j - i - 1);
                    assert(inner.skip(j - i - 1 + 1) =~= v@.skip(j + 1));
                }
                i = j + 1;
            } else {
                proof {
                    assert forall|m: int| 0 <= m < inner.len() implies inner[m] != '>' by {
                        assert(inner[m] == v@[m + i + 1]);
                    }
                    lemma_find_gt(inner);
                    if find_gt(inner) is Some {
                        let jj = find_gt(inner)->Some_0;
                        assert(inner[jj] != '>');
                    }
                    assert(strip_markup(tail) == seq![tail[0]] + strip_markup(tail.drop_first()));
                }
                out.push(c);
                i = i + 1;
            }
        } else {
            proof {
                assert(strip_markup(tail) == seq![tail[0]] + strip_markup(tail.drop_first()));
            }
            out.push(c);
            i = i + 1;
        }
    }
    proof {
        assert(v@.skip(n as int) =~= Seq::<char>::empty());
        assert(strip_markup(v@.skip(n as int)) =~= Seq::<char>::empty());
    }
    out
}

/// Whether a character is an ASCII decimal digit.
pub open spec fn is_digit(c: char) -> bool {
    48 <= c as u32 <= 57
}

/// The numeric value of a digit run, most significant first.
pub open spec fn digits_val(s: Seq<char>) -> int
    decreases s.len(),
{
    if s.len() == 0 {
        0
    } else {
        digits_val(s.drop_last()) * 10 + (s.last() as u32 - 48)
    }
}

proof fn lemma_digits_val_bounds(s: Seq<char>)
    requires
        forall|m: int| 0 <= m < s.len() ==> is_digit(#[trigger] s[m]),
    ensures
        digits_val(s) >= 0,
        s.len() > 0 ==> digits_val(s) >= digits_val(s.drop_last()),
    decreases s.len(),
{
    if s.len() > 0 {
        assert forall|m: int| 0 <= m < s.drop_last().len() implies is_digit(
            #[trigger] s.drop_last()[m],
        ) by {
            assert(s.drop_last()[m] == s[m]);
        }
        lemma_digits_val_bounds(s.drop_last());
        assert(is_digit(s.last()));
    }
}

/// Positions `1 ..= j` scanned backwards for a '/' followed by a digit.
pub open spec fn find_slash(s: Seq<char>, j: int) -> Option<int>
    decreases j + 1,
{
    if j < 1 {
        None
    } else if s[j] == '/' && is_digit(s[j + 1]) {
        Some(j)
    } else {
        find_slash(s, j - 1)
    }
}

/// Where the identifier digits of a canonical entry id begin: one past the
/// last '/' that is followed by a digit and preceded by at least one
/// character.
pub open spec fn id_start(s: Seq<char>) -> Option<int> {
    if s.len() >= 3 {
        find_slash(s, s.len() - 2)
    } else {
        None
    }
}

/// One past the maximal digit run starting at `j`.
pub open spec fn digits_end(s: Seq<char>, j: int) -> int
    decreases s.len() - j,
{
    if 0 <= j < s.len() && is_digit(s[j]) {
        digits_end(s, j + 1)
    } else {
        j
    }
}

/// The identifier encoded in a canonical entry id: the trailing integer
/// after the last '/', when there is one and it fits in 64 bits.
pub open spec fn entry_issue_id(s: Seq<char>) -> Option<u64> {
    match id_start(s) {
        Some(j) => {
            let e = digits_end(s, j + 1);
            let v = digits_val(s.subrange(j + 1, e));
            if v <= u64::MAX {
                Some(v as u64)
            } else {
                None
            }
        },
        None => None,
    }
}

/// Decides whether a character is an ASCII decimal digit.
pub fn is_digit_char(c: char) -> (r: bool)
    ensures
        r == is_digit(c),
{
    let u: u32 = c as u32;
    48 <= u && u <= 57
}

proof fn lemma_digits_prefix(s: Seq<char>, k: int)
    requires
        forall|m: int| 0 <= m < s.len() ==> is_digit(#[trigger] s[m]),
        0 <= k <= s.len(),
    ensures
        digits_val(s.take(k)) <= digits_val(s),
    decreases s.len(),
{
    lemma_digits_val_bounds(s);
    if k < s.len() {
        assert forall|m: int| 0 <= m < s.drop_last().len() implies is_digit(
            #[trigger] s.drop_last()[m],
        ) by {
            assert(s.drop_last()[m] == s[m]);
        }
        lemma_digits_prefix(s.drop_last(), k);
        assert(s.drop_last().take(k) =~= s.take(k));
    } else {
        assert(s.take(k) =~= s);
    }
}

/// Parses the issue identifier out of a canonical entry id: the trailing
/// integer after the last '/'. Fails when no such integer exists or it
/// exceeds 64 bits.
pub fn extract_issue_id(v: &Vec<char>) -> (r: Result<u64, Error>)
    ensures
        match r {
            Ok(id) => entry_issue_id(v@) == Some(id),
            Err(e) => entry_issue_id(v@) is None && e is MalformedEntry,
        },
{
    let n = v.len();
    if n < 3 {
        return Err(Error::MalformedEntry(String::from_str("entry id has no trailing integer")));
    }
    let mut j: usize = n - 2;
    loop
        invariant
            n == v@.len(),
            3 <= n,
            1 <= j <= n - 2,
            find_slash(v@, n - 2) == find_slash(v@, j as int),
        decreases j,
    {
        let d: u32 = v[j + 1] as u32;
        if v[j] == '/' && 48 <= d && d <= 57 {
            proof {
                assert(find_slash(v@, j as int) == Some(j as int));
                assert(id_start(v@) == Some(j as int));
            }
            let mut e: usize = j + 1;
            while e < n && is_digit_char(v[e])
                invariant
                    n == v@.len(),
                    j + 1 <= e <= n,
                    digits_end(v@, j + 1) == digits_end(v@, e as int),
                    forall|m: int| j + 1 <= m < e ==> is_digit(#[trigger] v@[m]),
                decreases n - e,
            {
                e = e + 1;
            }
            proof {
                assert(digits_end(v@, e as int) == e);
            }
            let ghost dseq = v@.subrange(j + 1, e as int);
            let mut val: u64 = 0;
            let mut p: usize = j + 1;
            proof {
                assert(v@.subrange(j + 1, j + 1) =~= Seq::<char>::empty());
            }
            while p < e
                invariant
                    n == v@.len(),
                    j + 1 <= p <= e <= n,
                    dseq == v@.subrange(j + 1, e as int),
                    forall|m: int| j + 1 <= m < e ==> is_digit(#[trigger] v@[m]),
                    val == digits_val(v@.subrange(j + 1, p as int)),
                    entry_issue_id(v@) == if digits_val(dseq) <= u64::MAX {
                        Some(digits_val(dseq) as u64)
                    } else {
                        None::<u64>
                    },
                decreases e - p,
            {
                let d10: u32 = v[p] as u32;
                proof {
                    assert(v@.subrange(j + 1, p + 1).drop_last() =~= v@.subrange(j + 1, p as int));
                    assert(v@.subrange(j + 1, p + 1).last() == v@[p as int]);
                    assert forall|m: int| 0 <= m < dseq.len() implies is_digit(
                        #[trigger] dseq[m],
                    ) by {
                        assert(dseq[m] == v@[j + 1 + m]);
                    }
                }
                let big = match val.checked_mul(10) {
                    Some(x) => x.checked_add((d10 - 48) as u64),
                    None => None,
                };
                match big {
                    Some(x) => {
                        val = x;
                    },
                    None => {
                        proof {
                            lemma_digits_prefix(dseq, p + 1 - (j + 1));
                            assert(dseq.take(p + 1 - (j + 1)) =~= v@.subrange(j + 1, p + 1));
                        }
                        return Err(
                            Error::MalformedEntry(
                                String::from_str("entry id integer exceeds 64 bits"),
                            ),
                        );
                    },
                }
                p = p + 1;
            }
            proof {
                assert(v@.subrange(j + 1, p as int) == dseq);
            }
            return Ok(val);
        }
        if j == 1 {
            proof {
                assert(find_slash(v@, 1) == find_slash(v@, 0));
                assert(find_slash(v@, 0) is None);
            }
            return Err(
                Error::MalformedEntry(String::from_str("entry id has no trailing integer")),
            );
        }
        proof {
            assert(find_slash(v@, j as int) == find_slash(v@, j - 1));
        }
        j = j - 1;
    }
}

} // verus!
