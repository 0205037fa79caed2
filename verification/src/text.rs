//! Character-level text utilities: whitespace trimming and decimal rendering.

use vstd::prelude::*;
use vstd::string::StrSliceExecFns;
use vstd::string::StringExecFns;

verus! {

/// Whitespace characters recognized when trimming: the Unicode
/// `White_Space` set.
pub open spec fn is_space(c: char) -> bool {
    let u = c as int;
    u == 0x20 || (0x9 <= u && u <= 0xD) || u == 0x85 || u == 0xA0 || u == 0x1680
        || (0x2000 <= u && u <= 0x200A) || u == 0x2028 || u == 0x2029 || u == 0x202F
        || u == 0x205F || u == 0x3000
}

/// Runtime test for [`is_space`].
pub fn is_space_char(c: char) -> (b: bool)
    ensures
        b == is_space(c),
{
    let u = c as u32;
    u == 0x20 || (0x9 <= u && u <= 0xD) || u == 0x85 || u == 0xA0 || u == 0x1680
        || (0x2000 <= u && u <= 0x200A) || u == 0x2028 || u == 0x2029 || u == 0x202F
        || u == 0x205F || u == 0x3000
}

/// Index of the first non-whitespace character at or after `i`, or `s.len()`.
pub open spec fn first_non_space(s: Seq<char>, i: int) -> int
    decreases s.len() - i,
{
    if 0 <= i < s.len() {
        if is_space(s[i]) {
            first_non_space(s, i + 1)
        } else {
            i
        }
    } else {
        s.len() as int
    }
}

/// One past the index of the last non-whitespace character strictly before
/// `i`, or `0`.
pub open spec fn end_non_space(s: Seq<char>, i: int) -> int
    decreases i,
{
    if 0 < i <= s.len() {
        if is_space(s[i - 1]) {
            end_non_space(s, i - 1)
        } else {
            i
        }
    } else {
        0
    }
}

/// The sequence with leading and trailing whitespace removed.
pub open spec fn trim_seq(s: Seq<char>) -> Seq<char> {
    let lo = first_non_space(s, 0);
    let hi = end_non_space(s, s.len() as int);
    if lo <= hi {
        s.subrange(lo, hi)
    } else {
        Seq::empty()
    }
}

proof fn lemma_first_non_space_at(s: Seq<char>, i: int, j: int)
    requires
        0 <= i <= j <= s.len(),
        forall|k: int| i <= k < j ==> is_space(s[k]),
        j == s.len() || !is_space(s[j]),
    ensures
        first_non_space(s, i) == j,
    decreases j - i,
{
    if i < j {
        lemma_first_non_space_at(s, i + 1, j);
    }
}

proof fn lemma_end_non_space_at(s: Seq<char>, i: int, j: int)
    requires
        0 <= j <= i <= s.len(),
        forall|k: int| j <= k < i ==> is_space(s[k]),
        j == 0 || !is_space(s[j - 1]),
    ensures
        end_non_space(s, i) == j,
    decreases i - j,
{
    if j < i {
        lemma_end_non_space_at(s, i - 1, j);
    }
}

/// Trimming a run of nothing but whitespace leaves nothing.
pub proof fn lemma_trim_all_space(w: Seq<char>)
    requires
        forall|t: int| 0 <= t < w.len() ==> is_space(#[trigger] w[t]),
    ensures
        trim_seq(w).len() == 0,
{
    lemma_first_non_space_at(w, 0, w.len() as int);
    lemma_end_non_space_at(w, w.len() as int, 0);
}

/// Trims the substring `s[from..to]` (in character indices), returning a
/// fresh string with leading and trailing whitespace removed.
pub fn trim_range(s: &str, from: usize, to: usize) -> (r: String)
    requires
        from <= to <= s@.len(),
    ensures
        r@ == trim_seq(s@.subrange(from as int, to as int)),
{
    let ghost sub = s@.subrange(from as int, to as int);
    let mut lo: usize = from;
    while lo < to && is_space_char(s.get_char(lo))
        invariant
            from <= lo <= to,
            forall|k: int| from <= k < lo ==> is_space(s@[k]),
        decreases to - lo,
    {
        lo += 1;
    }
    let mut hi: usize = to;
    while hi > lo && is_space_char(s.get_char(hi - 1))
        invariant
            lo <= hi <= to,
            forall|k: int| hi <= k < to ==> is_space(s@[k]),
        decreases hi,
    {
        hi -= 1;
    }
    proof {
        assert(forall|k: int| 0 <= k < sub.len() ==> sub[k] == s@[from + k]);
        if lo == to {
            // everything is whitespace
            lemma_first_non_space_at(sub, 0, sub.len() as int);
            lemma_end_non_space_at(sub, sub.len() as int, 0);
            assert(trim_seq(sub) =~= Seq::<char>::empty());
        } else {
            lemma_first_non_space_at(sub, 0, lo - from);
            lemma_end_non_space_at(sub, sub.len() as int, hi - from);
            assert(trim_seq(sub) =~= s@.subrange(lo as int, hi as int));
        }
    }
    if lo == to {
        String::new()
    } else {
        s.substring_char(lo, hi).to_owned()
    }
}

/// The decimal digit character for `d` (which must be `0..=9`).
pub open spec fn dec_digit(d: int) -> char {
    if d == 0 {
        '0'
    } else if d == 1 {
        '1'
    } else if d == 2 {
        '2'
    } else if d == 3 {
        '3'
    } else if d == 4 {
        '4'
    } else if d == 5 {
        '5'
    } else if d == 6 {
        '6'
    } else if d == 7 {
        '7'
    } else if d == 8 {
        '8'
    } else {
        '9'
    }
}

/// The usual decimal rendering of `n`, with no leading zeros.
pub open spec fn dec_seq(n: nat) -> Seq<char>
    decreases n,
{
    if n < 10 {
        seq![dec_digit(n as int)]
    } else {
        dec_seq(n / 10).push(dec_digit((n % 10) as int))
    }
}

fn digit_str(d: usize) -> (r: &'static str)
    requires
        d < 10,
    ensures
        r@ == seq![dec_digit(d as int)],
{
    proof {
        reveal_strlit("0");
        reveal_strlit("1");
        reveal_strlit("2");
        reveal_strlit("3");
        reveal_strlit("4");
        reveal_strlit("5");
        reveal_strlit("6");
        reveal_strlit("7");
        reveal_strlit("8");
        reveal_strlit("9");
    }
    let r: &'static str = if d == 0 {
        "0"
    } else if d == 1 {
        "1"
    } else if d == 2 {
        "2"
    } else if d == 3 {
        "3"
    } else if d == 4 {
        "4"
    } else if d == 5 {
        "5"
    } else if d == 6 {
        "6"
    } else if d == 7 {
        "7"
    } else if d == 8 {
        "8"
    } else {
        "9"
    };
    proof {
        assert(r@ =~= seq![dec_digit(d as int)]);
    }
    r
}

/// Renders `n` in decimal.
pub fn usize_to_string(n: usize) -> (r: String)
    ensures
        r@ == dec_seq(n as nat),
    decreases n,
{
    if n < 10 {
        digit_str(n).to_owned()
    } else {
        let mut s = usize_to_string(n / 10);
        s.append(digit_str(n % 10));
        proof {
            assert(s@ =~= dec_seq(n as nat));
        }
        s
    }
}

} // verus!
