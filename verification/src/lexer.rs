//! The lexer: raw markup text to an ordered sequence of terms.
//!
//! A single-pass scan with one accumulator and one-character lookback,
//! described exactly by the spec state machine [`lex_step`] folded over the
//! input by [`lex_from`].

use vstd::prelude::*;
use vstd::string::StrSliceExecFns;

use crate::term::TermV;
use crate::term::XMLTerm;
use crate::term::terms_v;
use crate::text::trim_seq;
use crate::text::trim_range;

verus! {

/// The lexer state: the accumulator, the previous character, and whether
/// the rest of the current line is being skipped.
pub struct LexSt {
    pub acc: TermV,
    pub prev: char,
    pub skip: bool,
}

/// The state the scan starts in.
pub open spec fn lex_init() -> LexSt {
    LexSt { acc: TermV::Nothing, prev: '\0', skip: false }
}

/// Trim a term's content; keep the term only if something remains.
pub open spec fn flush_term(t: TermV) -> Seq<TermV> {
    match t {
        TermV::Open(s) => if trim_seq(s).len() > 0 {
            seq![TermV::Open(trim_seq(s))]
        } else {
            Seq::empty()
        },
        TermV::Close(s) => if trim_seq(s).len() > 0 {
            seq![TermV::Close(trim_seq(s))]
        } else {
            Seq::empty()
        },
        TermV::Text(s) => if trim_seq(s).len() > 0 {
            seq![TermV::Text(trim_seq(s))]
        } else {
            Seq::empty()
        },
        TermV::Nothing => Seq::empty(),
    }
}

pub open spec fn lex_err_lt() -> Seq<char> {
    "Unexpected '<'"@
}

pub open spec fn lex_err_gt() -> Seq<char> {
    "Unexpected '>'"@
}

pub open spec fn lex_err_slash() -> Seq<char> {
    "Unexpected '/'"@
}

/// One step of the scan: the next state and the terms emitted, or the
/// message the scan aborts with.
pub open spec fn lex_step(st: LexSt, c: char) -> Result<(LexSt, Seq<TermV>), Seq<char>> {
    if st.skip {
        if c == '\n' {
            // the skipped line ends: the accumulator resets, and the line
            // break itself starts a fresh text accumulator
            Ok((LexSt { acc: TermV::Text(seq!['\n']), prev: '\n', skip: false }, Seq::empty()))
        } else {
            Ok((st, Seq::empty()))
        }
    } else if c == '<' {
        match st.acc {
            TermV::Text(s) => Ok(
                (
                    LexSt { acc: TermV::Open(Seq::empty()), prev: c, skip: false },
                    flush_term(TermV::Text(s)),
                ),
            ),
            TermV::Nothing => Ok(
                (LexSt { acc: TermV::Open(Seq::empty()), prev: c, skip: false }, Seq::empty()),
            ),
            _ => Err(lex_err_lt()),
        }
    } else if c == '>' {
        match st.acc {
            TermV::Open(s) => Ok(
                (
                    LexSt { acc: TermV::Nothing, prev: c, skip: false },
                    flush_term(TermV::Open(s)),
                ),
            ),
            TermV::Close(s) => Ok(
                (
                    LexSt { acc: TermV::Nothing, prev: c, skip: false },
                    flush_term(TermV::Close(s)),
                ),
            ),
            _ => Err(lex_err_gt()),
        }
    } else if c == '/' && !(st.acc is Text) {
        match st.acc {
            TermV::Open(s) => if st.prev == '<' {
                Ok((LexSt { acc: TermV::Close(s), prev: c, skip: false }, Seq::empty()))
            } else {
                Err(lex_err_slash())
            },
            _ => Err(lex_err_slash()),
        }
    } else if c == '?' {
        Ok((LexSt { acc: st.acc, prev: c, skip: true }, Seq::empty()))
    } else {
        let acc2 = match st.acc {
            TermV::Nothing => TermV::Text(seq![c]),
            TermV::Open(s) => TermV::Open(s.push(c)),
            TermV::Close(s) => TermV::Close(s.push(c)),
            TermV::Text(s) => TermV::Text(s.push(c)),
        };
        Ok((LexSt { acc: acc2, prev: c, skip: false }, Seq::empty()))
    }
}

/// The scan folded over a character sequence, starting from `st`.
pub open spec fn lex_from(st: LexSt, s: Seq<char>) -> Result<(LexSt, Seq<TermV>), Seq<char>>
    decreases s.len(),
{
    if s.len() == 0 {
        Ok((st, Seq::empty()))
    } else {
        match lex_step(st, s[0]) {
            Err(m) => Err(m),
            Ok((st1, out1)) => match lex_from(st1, s.drop_first()) {
                Err(m) => Err(m),
                Ok((st2, out2)) => Ok((st2, out1 + out2)),
            },
        }
    }
}

/// What lexing a whole document yields: the emitted terms in order, or the
/// abort message. A trailing unflushed accumulator is dropped.
pub open spec fn spec_lex(s: Seq<char>) -> Result<Seq<TermV>, Seq<char>> {
    match lex_from(lex_init(), s) {
        Ok((st, out)) => Ok(out),
        Err(m) => Err(m),
    }
}

/// The scan of a concatenation is the scan of the first part continued over
/// the second.
pub proof fn lemma_lex_from_app(st: LexSt, a: Seq<char>, b: Seq<char>)
    ensures
        lex_from(st, a + b) == (match lex_from(st, a) {
            Err(m) => Err(m),
            Ok((st1, o1)) => match lex_from(st1, b) {
                Err(m) => Err(m),
                Ok((st2, o2)) => Ok::<(LexSt, Seq<TermV>), Seq<char>>((st2, o1 + o2)),
            },
        }),
    decreases a.len(),
{
    if a.len() == 0 {
        assert(a + b =~= b);
        match lex_from(st, b) {
            Err(m) => {},
            Ok((st2, o2)) => {
                assert(Seq::<TermV>::empty() + o2 =~= o2);
            },
        }
    } else {
        assert((a + b)[0] == a[0]);
        assert((a + b).len() > 0);
        assert((a + b).drop_first() =~= a.drop_first() + b);
        match lex_step(st, a[0]) {
            Err(m) => {},
            Ok((st1, o1)) => {
                lemma_lex_from_app(st1, a.drop_first(), b);
                match lex_from(st1, a.drop_first()) {
                    Err(m) => {},
                    Ok((st2, o2)) => {
                        match lex_from(st2, b) {
                            Err(m) => {},
                            Ok((st3, o3)) => {
                                assert(o1 + (o2 + o3) =~= (o1 + o2) + o3);
                            },
                        }
                    },
                }
            },
        }
    }
}

/// The scan of one more character is the scan so far followed by one step.
pub proof fn lemma_lex_from_snoc(st: LexSt, a: Seq<char>, c: char)
    ensures
        lex_from(st, a.push(c)) == (match lex_from(st, a) {
            Err(m) => Err(m),
            Ok((st1, o1)) => match lex_step(st1, c) {
                Err(m) => Err::<(LexSt, Seq<TermV>), Seq<char>>(m),
                Ok((st2, o2)) => Ok((st2, o1 + o2)),
            },
        }),
{
    lemma_lex_from_app(st, a, seq![c]);
    assert(a.push(c) =~= a + seq![c]);
    assert(seq![c][0] == c);
    assert(seq![c].drop_first() =~= Seq::<char>::empty());
    match lex_from(st, a) {
        Err(m) => {},
        Ok((st1, o1)) => {
            match lex_step(st1, c) {
                Err(m) => {
                    assert(lex_from(st1, seq![c]) == Err::<(LexSt, Seq<TermV>), Seq<char>>(m));
                },
                Ok((st2, o2)) => {
                    assert(lex_from(st2, seq![c].drop_first()) == Ok::<
                        (LexSt, Seq<TermV>),
                        Seq<char>,
                    >((st2, Seq::empty())));
                    assert(o2 + Seq::<TermV>::empty() =~= o2);
                    assert(lex_from(st1, seq![c]) == Ok::<(LexSt, Seq<TermV>), Seq<char>>(
                        (st2, o2),
                    ));
                },
            }
        },
    }
}

/// The executable accumulator: its kind; its content is carried as a range
/// of the input.
enum Acc {
    Nothing,
    Open,
    Close,
    Text,
}

/// The executable accumulator `(a, start)` at position `i` of input `s`
/// stands for the spec accumulator `av`.
spec fn acc_matches(a: Acc, start: int, i: int, s: Seq<char>, av: TermV) -> bool {
    match a {
        Acc::Nothing => av == TermV::Nothing,
        Acc::Open => 0 <= start <= i <= s.len() && av == TermV::Open(s.subrange(start, i)),
        Acc::Close => 0 <= start <= i <= s.len() && av == TermV::Close(s.subrange(start, i)),
        Acc::Text => 0 <= start <= i <= s.len() && av == TermV::Text(s.subrange(start, i)),
    }
}

/// Trims `current_term`'s content and appends the result to `terms` if it
/// is non-empty; yields the reset accumulator.
pub fn push_term(terms: &mut Vec<XMLTerm>, current_term: &mut XMLTerm) -> (r: XMLTerm)
    ensures
        terms_v(final(terms)@) == terms_v(old(terms)@) + flush_term(old(current_term)@),
        *final(current_term) == *old(current_term),
        r@ == TermV::Nothing,
{
    let ghost oldv = terms_v(old(terms)@);
    match &*current_term {
        XMLTerm::OpeningTag(s) => {
            let t = trim_range(s.as_str(), 0, s.as_str().unicode_len());
            proof {
                assert(s@.subrange(0, s@.len() as int) =~= s@);
            }
            if !t.as_str().is_empty() {
                terms.push(XMLTerm::OpeningTag(t));
            }
        },
        XMLTerm::ClosingTag(s) => {
            let t = trim_range(s.as_str(), 0, s.as_str().unicode_len());
            proof {
                assert(s@.subrange(0, s@.len() as int) =~= s@);
            }
            if !t.as_str().is_empty() {
                terms.push(XMLTerm::ClosingTag(t));
            }
        },
        XMLTerm::Text(s) => {
            let t = trim_range(s.as_str(), 0, s.as_str().unicode_len());
            proof {
                assert(s@.subrange(0, s@.len() as int) =~= s@);
            }
            if !t.as_str().is_empty() {
                terms.push(XMLTerm::Text(t));
            }
        },
        XMLTerm::Nothing => {},
    }
    proof {
        assert(terms_v(terms@) =~= oldv + flush_term(old(current_term)@));
    }
    XMLTerm::Nothing
}

/// Converts markup text into the ordered sequence of its terms, or aborts
/// with a message naming the offending character.
pub fn lexer(file_contents: String) -> (r: Result<Vec<XMLTerm>, String>)
    ensures
        match spec_lex(file_contents@) {
            Ok(tv) => r matches Ok(ts) && terms_v(ts@) == tv,
            Err(m) => r matches Err(e) && e@ == m,
        },
{
    let s: &str = file_contents.as_str();
    let n: usize = s.unicode_len();
    let mut terms: Vec<XMLTerm> = Vec::new();
    let mut acc: Acc = Acc::Nothing;
    let mut start: usize = 0;
    let mut prev: char = '\0';
    let mut skip: bool = false;
    let mut i: usize = 0;
    while i < n
        invariant
            i <= n,
            lex_from(lex_init(), s@.take(i as int)) matches Ok(p) && {
                &&& p.1 == terms_v(terms@)
                &&& p.0.prev == prev
                &&& p.0.skip == skip
                &&& (!skip ==> acc_matches(acc, start as int, i as int, s@, p.0.acc))
                &&& (!skip && (acc matches Acc::Open) && prev == '<' ==> start == i)
            },
        decreases n - i,
    {
        let c = s.get_char(i);
        let ghost pre = s@.take(i as int);
        let ghost st0 = lex_from(lex_init(), pre)->Ok_0.0;
        proof {
            lemma_lex_from_snoc(lex_init(), pre, c);
            assert(pre.push(c) =~= s@.take(i as int + 1));
            let out0 = lex_from(lex_init(), pre)->Ok_0.1;
            assert(out0 + Seq::<TermV>::empty() =~= out0);
        }
        if skip {
            if c == '\n' {
                acc = Acc::Text;
                start = i;
                prev = '\n';
                skip = false;
                proof {
                    assert(s@.subrange(i as int, i as int + 1) =~= seq!['\n']);
                }
            }
        } else if c == '<' {
            match acc {
                Acc::Text => {
                    let t = trim_range(s, start, i);
                    if !t.as_str().is_empty() {
                        terms.push(XMLTerm::Text(t));
                    }
                },
                Acc::Nothing => {},
                _ => {
                    proof {
                        assert(s@ =~= s@.take(i as int + 1) + s@.skip(i as int + 1));
                        lemma_lex_from_app(lex_init(), s@.take(i as int + 1), s@.skip(i as int + 1));
                    }
                    return Err("Unexpected '<'".to_owned());
                },
            }
            acc = Acc::Open;
            start = i + 1;
            prev = '<';
            proof {
                assert(s@.subrange(i as int + 1, i as int + 1) =~= Seq::<char>::empty());
                assert(terms_v(terms@) =~= lex_from(lex_init(), s@.take(i as int + 1))->Ok_0.1);
            }
        } else if c == '>' {
            match acc {
                Acc::Open => {
                    let t = trim_range(s, start, i);
                    if !t.as_str().is_empty() {
                        terms.push(XMLTerm::OpeningTag(t));
                    }
                },
                Acc::Close => {
                    let t = trim_range(s, start, i);
                    if !t.as_str().is_empty() {
                        terms.push(XMLTerm::ClosingTag(t));
                    }
                },
                _ => {
                    proof {
                        assert(s@ =~= s@.take(i as int + 1) + s@.skip(i as int + 1));
                        lemma_lex_from_app(lex_init(), s@.take(i as int + 1), s@.skip(i as int + 1));
                    }
                    return Err("Unexpected '>'".to_owned());
                },
            }
            acc = Acc::Nothing;
            prev = '>';
            proof {
                assert(terms_v(terms@) =~= lex_from(lex_init(), s@.take(i as int + 1))->Ok_0.1);
            }
        } else if c == '/' && !(matches!(acc, Acc::Text)) {
            let convert: bool = match acc {
                Acc::Open => prev == '<',
                _ => false,
            };
            if convert {
                proof {
                    assert(s@.subrange(start as int, i as int) =~= Seq::<char>::empty());
                    assert(s@.subrange(i as int + 1, i as int + 1) =~= Seq::<char>::empty());
                }
                acc = Acc::Close;
                start = i + 1;
                prev = '/';
            } else {
                proof {
                    assert(s@ =~= s@.take(i as int + 1) + s@.skip(i as int + 1));
                    lemma_lex_from_app(lex_init(), s@.take(i as int + 1), s@.skip(i as int + 1));
                }
                return Err("Unexpected '/'".to_owned());
            }
        } else if c == '?' {
            skip = true;
            prev = '?';
        } else {
            match acc {
                Acc::Nothing => {
                    acc = Acc::Text;
                    start = i;
                    proof {
                        assert(s@.subrange(i as int, i as int + 1) =~= seq![c]);
                    }
                },
                _ => {
                    proof {
                        assert(s@.subrange(start as int, i as int + 1) =~= s@.subrange(
                            start as int,
                            i as int,
                        ).push(c));
                    }
                },
            }
            prev = c;
        }
        i += 1;
    }
    proof {
        assert(s@.take(n as int) =~= s@);
    }
    Ok(terms)
}

} // verus!
