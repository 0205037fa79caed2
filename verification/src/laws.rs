//! Proved laws relating the components across a whole conversion: the
//! lexer inverts the rendering of serialized terms, and the parser rebuilds
//! the serialized tree, for documents of one element and of one nested
//! element.

use vstd::prelude::*;

use crate::lexer::LexSt;
use crate::lexer::flush_term;
use crate::lexer::lex_from;
use crate::lexer::lex_init;
use crate::lexer::lex_step;
use crate::lexer::lemma_lex_from_app;
use crate::lexer::spec_lex;
use crate::node::NodeV;
use crate::node::tree_wf;
use crate::parser::ParseOut;
use crate::parser::parse_from;
use crate::parser::parse_init;
use crate::parser::parse_step;
use crate::parser::lemma_parse_from_snoc;
use crate::parser::spec_parse;
use crate::serialize::indent;
use crate::serialize::render_terms_up;
use crate::serialize::ser_kids;
use crate::serialize::ser_node;
use crate::term::TermV;
use crate::text::is_space;
use crate::text::lemma_trim_all_space;
use crate::text::trim_seq;

verus! {

/// A character the lexer treats as ordinary content in any accumulator.
pub open spec fn plain_char(c: char) -> bool {
    c != '<' && c != '>' && c != '/' && c != '?'
}

/// A tag name the lexer hands back unchanged: non-empty, trim-stable, and
/// free of markup-significant characters.
pub open spec fn clean_name(s: Seq<char>) -> bool {
    &&& s.len() > 0
    &&& trim_seq(s) == s
    &&& forall|t: int| 0 <= t < s.len() ==> plain_char(#[trigger] s[t])
}

/// Leaf text the lexer hands back unchanged. A `/` is ordinary inside
/// text, but must not come first: there it would follow a fresh
/// accumulator and abort the lex.
pub open spec fn clean_text(s: Seq<char>) -> bool {
    &&& trim_seq(s) == s
    &&& forall|t: int| 0 <= t < s.len() ==> (#[trigger] s[t] != '<' && s[t] != '>' && s[t] != '?')
    &&& s.len() > 0 ==> s[0] != '/'
}

/// The rendered text of an opening tag.
pub open spec fn open_tag_txt(name: Seq<char>) -> Seq<char> {
    seq!['<'] + name + seq!['>']
}

/// The rendered text of a closing tag.
pub open spec fn close_tag_txt(name: Seq<char>) -> Seq<char> {
    seq!['<', '/'] + name + seq!['>']
}

/// The lexer state after a flush: no accumulator, fresh from a `>`.
spec fn st_after_gt() -> LexSt {
    LexSt { acc: TermV::Nothing, prev: '>', skip: false }
}

/// Scanning ordinary characters into an open-tag accumulator appends them
/// all, emitting nothing.
proof fn lemma_lex_name(p: Seq<char>, n: Seq<char>, prev: char)
    requires
        forall|t: int| 0 <= t < n.len() ==> plain_char(#[trigger] n[t]),
    ensures
        lex_from(LexSt { acc: TermV::Open(p), prev, skip: false }, n) == Ok::<
            (LexSt, Seq<TermV>),
            Seq<char>,
        >(
            (
                LexSt {
                    acc: TermV::Open(p + n),
                    prev: if n.len() == 0 {
                        prev
                    } else {
                        n.last()
                    },
                    skip: false,
                },
                Seq::empty(),
            ),
        ),
    decreases n.len(),
{
    if n.len() == 0 {
        assert(p + n =~= p);
    } else {
        let c = n[0];
        lemma_lex_name(p.push(c), n.drop_first(), c);
        assert(p.push(c) + n.drop_first() =~= p + n);
        if n.len() > 1 {
            assert(n.drop_first().last() == n.last());
        }
        assert(Seq::<TermV>::empty() + Seq::<TermV>::empty() =~= Seq::<TermV>::empty());
    }
}

/// The same for a closing-tag accumulator.
proof fn lemma_lex_close_name(p: Seq<char>, n: Seq<char>, prev: char)
    requires
        forall|t: int| 0 <= t < n.len() ==> plain_char(#[trigger] n[t]),
    ensures
        lex_from(LexSt { acc: TermV::Close(p), prev, skip: false }, n) == Ok::<
            (LexSt, Seq<TermV>),
            Seq<char>,
        >(
            (
                LexSt {
                    acc: TermV::Close(p + n),
                    prev: if n.len() == 0 {
                        prev
                    } else {
                        n.last()
                    },
                    skip: false,
                },
                Seq::empty(),
            ),
        ),
    decreases n.len(),
{
    if n.len() == 0 {
        assert(p + n =~= p);
    } else {
        let c = n[0];
        lemma_lex_close_name(p.push(c), n.drop_first(), c);
        assert(p.push(c) + n.drop_first() =~= p + n);
        if n.len() > 1 {
            assert(n.drop_first().last() == n.last());
        }
        assert(Seq::<TermV>::empty() + Seq::<TermV>::empty() =~= Seq::<TermV>::empty());
    }
}

/// Scanning text characters into a text accumulator appends them all.
proof fn lemma_lex_text(p: Seq<char>, n: Seq<char>, prev: char)
    requires
        forall|t: int| 0 <= t < n.len() ==> (#[trigger] n[t] != '<' && n[t] != '>' && n[t] != '?'),
    ensures
        lex_from(LexSt { acc: TermV::Text(p), prev, skip: false }, n) == Ok::<
            (LexSt, Seq<TermV>),
            Seq<char>,
        >(
            (
                LexSt {
                    acc: TermV::Text(p + n),
                    prev: if n.len() == 0 {
                        prev
                    } else {
                        n.last()
                    },
                    skip: false,
                },
                Seq::empty(),
            ),
        ),
    decreases n.len(),
{
    if n.len() == 0 {
        assert(p + n =~= p);
    } else {
        let c = n[0];
        lemma_lex_text(p.push(c), n.drop_first(), c);
        assert(p.push(c) + n.drop_first() =~= p + n);
        if n.len() > 1 {
            assert(n.drop_first().last() == n.last());
        }
        assert(Seq::<TermV>::empty() + Seq::<TermV>::empty() =~= Seq::<TermV>::empty());
    }
}

/// One scan step as a one-character fold.
proof fn lemma_lex_one(st: LexSt, c: char)
    ensures
        lex_from(st, seq![c]) == (match lex_step(st, c) {
            Err(m) => Err(m),
            Ok((st1, o1)) => Ok::<(LexSt, Seq<TermV>), Seq<char>>((st1, o1)),
        }),
{
    assert(seq![c][0] == c);
    assert(seq![c].drop_first() =~= Seq::<char>::empty());
    match lex_step(st, c) {
        Err(m) => {},
        Ok((st1, o1)) => {
            assert(lex_from(st1, seq![c].drop_first()) == Ok::<(LexSt, Seq<TermV>), Seq<char>>(
                (st1, Seq::empty()),
            ));
            assert(o1 + Seq::<TermV>::empty() =~= o1);
            assert(lex_from(st, seq![c]) == Ok::<(LexSt, Seq<TermV>), Seq<char>>((st1, o1)));
        },
    }
}

/// Lexing a rendered opening tag flushes whatever text was pending and
/// emits the tag.
proof fn lemma_lex_open_tag(st: LexSt, name: Seq<char>)
    requires
        !st.skip,
        st.acc is Nothing || st.acc is Text,
        clean_name(name),
    ensures
        lex_from(st, open_tag_txt(name)) == Ok::<(LexSt, Seq<TermV>), Seq<char>>(
            (st_after_gt(), flush_term(st.acc) + seq![TermV::Open(name)]),
        ),
{
    lemma_lex_one(st, '<');
    lemma_lex_name(Seq::empty(), name, '<');
    lemma_lex_from_app(st, seq!['<'], name);
    let st2 = LexSt { acc: TermV::Open(Seq::empty() + name), prev: name.last(), skip: false };
    assert(lex_from(st, seq!['<'] + name) == Ok::<(LexSt, Seq<TermV>), Seq<char>>(
        (st2, flush_term(st.acc)),
    )) by {
        assert(flush_term(st.acc) + Seq::<TermV>::empty() =~= flush_term(st.acc));
    }
    lemma_lex_one(st2, '>');
    lemma_lex_from_app(st, seq!['<'] + name, seq!['>']);
    assert((seq!['<'] + name) + seq!['>'] =~= open_tag_txt(name));
    assert(Seq::empty() + name =~= name);
    assert(flush_term(st.acc) + seq![TermV::Open(trim_seq(Seq::empty() + name))] =~= flush_term(
        st.acc,
    ) + seq![TermV::Open(name)]);
}

/// Lexing a rendered closing tag flushes whatever text was pending and
/// emits the tag.
proof fn lemma_lex_close_tag(st: LexSt, name: Seq<char>)
    requires
        !st.skip,
        st.acc is Nothing || st.acc is Text,
        clean_name(name),
    ensures
        lex_from(st, close_tag_txt(name)) == Ok::<(LexSt, Seq<TermV>), Seq<char>>(
            (st_after_gt(), flush_term(st.acc) + seq![TermV::Close(name)]),
        ),
{
    let st1 = LexSt { acc: TermV::Open(Seq::empty()), prev: '<', skip: false };
    lemma_lex_one(st, '<');
    let st2 = LexSt { acc: TermV::Close(Seq::empty()), prev: '/', skip: false };
    lemma_lex_one(st1, '/');
    lemma_lex_from_app(st, seq!['<'], seq!['/']);
    assert(seq!['<'] + seq!['/'] =~= seq!['<', '/']);
    assert(lex_from(st, seq!['<', '/']) == Ok::<(LexSt, Seq<TermV>), Seq<char>>(
        (st2, flush_term(st.acc)),
    )) by {
        assert(flush_term(st.acc) + Seq::<TermV>::empty() =~= flush_term(st.acc));
    }
    lemma_lex_close_name(Seq::empty(), name, '/');
    lemma_lex_from_app(st, seq!['<', '/'], name);
    let st3 = LexSt { acc: TermV::Close(Seq::empty() + name), prev: name.last(), skip: false };
    assert(lex_from(st, seq!['<', '/'] + name) == Ok::<(LexSt, Seq<TermV>), Seq<char>>(
        (st3, flush_term(st.acc)),
    )) by {
        assert(flush_term(st.acc) + Seq::<TermV>::empty() =~= flush_term(st.acc));
    }
    lemma_lex_one(st3, '>');
    lemma_lex_from_app(st, seq!['<', '/'] + name, seq!['>']);
    assert((seq!['<', '/'] + name) + seq!['>'] =~= close_tag_txt(name));
    assert(Seq::empty() + name =~= name);
    assert(flush_term(st.acc) + seq![TermV::Close(trim_seq(Seq::empty() + name))] =~= flush_term(
        st.acc,
    ) + seq![TermV::Close(name)]);
}

/// Lexing a run of text characters from an empty accumulator gathers them
/// into a pending text accumulator, emitting nothing.
proof fn lemma_lex_text_run(st: LexSt, w: Seq<char>)
    requires
        !st.skip,
        st.acc is Nothing,
        w.len() > 0,
        w[0] != '/',
        forall|t: int| 0 <= t < w.len() ==> (#[trigger] w[t] != '<' && w[t] != '>' && w[t] != '?'),
    ensures
        lex_from(st, w) == Ok::<(LexSt, Seq<TermV>), Seq<char>>(
            (LexSt { acc: TermV::Text(w), prev: w.last(), skip: false }, Seq::empty()),
        ),
{
    lemma_lex_one(st, w[0]);
    lemma_lex_text(seq![w[0]], w.drop_first(), w[0]);
    lemma_lex_from_app(st, seq![w[0]], w.drop_first());
    assert(seq![w[0]] + w.drop_first() =~= w);
    assert(Seq::<TermV>::empty() + Seq::<TermV>::empty() =~= Seq::<TermV>::empty());
    if w.len() > 1 {
        assert(w.drop_first().last() == w.last());
    }
}

/// Law (round trip, one element): a tree holding one leaf element with a
/// clean name and clean text serializes to terms whose rendered text lexes
/// back to exactly the element's tag and text terms, and parsing those
/// terms rebuilds the very same tree.
pub proof fn lemma_single_element_round_trip(name: Seq<char>, data: Seq<char>)
    requires
        clean_name(name),
        clean_text(data),
    ensures
        ({
            let tree = seq![
                NodeV {
                    name: "root"@,
                    data: Seq::empty(),
                    parent: Option::None,
                    children: seq![1],
                },
                NodeV { name, data, parent: Some(0), children: Seq::empty() },
            ];
            let terms = ser_node(tree, 1, 0);
            let rendered = render_terms_up(terms, terms.len() as int);
            spec_lex(rendered) matches Ok(ts2) && spec_parse(ts2) matches ParseOut::Good(st)
                && st.nodes == tree
        }),
{
    let tree = seq![
        NodeV { name: "root"@, data: Seq::empty(), parent: Option::None, children: seq![1] },
        NodeV { name, data, parent: Some(0), children: Seq::empty() },
    ];
    assert(tree_wf(tree));
    let terms = ser_node(tree, 1, 0);
    assert(ser_kids(tree, 1, 0, 0) == Seq::<TermV>::empty());
    assert(indent(0) =~= Seq::<char>::empty());
    let expect_terms = seq![TermV::Text(Seq::empty()), TermV::Open(name)] + (if data.len() > 0 {
        seq![TermV::Text(data)]
    } else {
        Seq::<TermV>::empty()
    }) + seq![TermV::Close(name), TermV::Text(seq!['\n'])];
    assert(terms =~= expect_terms);
    let rendered = render_terms_up(terms, terms.len() as int);
    let a1 = open_tag_txt(name);
    let a2 = a1 + data;
    let a3 = a2 + close_tag_txt(name);
    let a4 = a3 + seq!['\n'];
    assert(rendered =~= a4) by {
        if data.len() > 0 {
            assert(terms.len() == 5);
            assert(render_terms_up(terms, 0) == Seq::<char>::empty());
            assert(render_terms_up(terms, 1) =~= Seq::<char>::empty());
            assert(render_terms_up(terms, 2) =~= a1);
            assert(render_terms_up(terms, 3) =~= a2);
            assert(render_terms_up(terms, 4) =~= a3);
            assert(render_terms_up(terms, 5) =~= a4);
        } else {
            assert(terms.len() == 4);
            assert(data =~= Seq::<char>::empty());
            assert(render_terms_up(terms, 0) == Seq::<char>::empty());
            assert(render_terms_up(terms, 1) =~= Seq::<char>::empty());
            assert(render_terms_up(terms, 2) =~= a1);
            assert(render_terms_up(terms, 3) =~= a3);
            assert(render_terms_up(terms, 4) =~= a4);
        }
    }
    // lex the pieces
    let st0 = lex_init();
    let open_out = seq![TermV::Open(name)];
    lemma_lex_open_tag(st0, name);
    assert(flush_term(st0.acc) + open_out =~= open_out);
    let st4 = if data.len() > 0 {
        LexSt { acc: TermV::Text(data), prev: data.last(), skip: false }
    } else {
        st_after_gt()
    };
    assert(lex_from(st0, a2) == Ok::<(LexSt, Seq<TermV>), Seq<char>>((st4, open_out))) by {
        if data.len() > 0 {
            lemma_lex_text_run(st_after_gt(), data);
            lemma_lex_from_app(st0, a1, data);
            assert(open_out + Seq::<TermV>::empty() =~= open_out);
        } else {
            assert(a2 =~= a1);
        }
    }
    let text_out = flush_term(st4.acc);
    assert(text_out == if data.len() > 0 {
        seq![TermV::Text(data)]
    } else {
        Seq::<TermV>::empty()
    });
    lemma_lex_close_tag(st4, name);
    lemma_lex_from_app(st0, a2, close_tag_txt(name));
    let all_out = open_out + text_out + seq![TermV::Close(name)];
    assert(lex_from(st0, a3) == Ok::<(LexSt, Seq<TermV>), Seq<char>>(
        (st_after_gt(), all_out),
    )) by {
        assert(open_out + (text_out + seq![TermV::Close(name)]) =~= all_out);
    }
    lemma_lex_one(st_after_gt(), '\n');
    lemma_lex_from_app(st0, a3, seq!['\n']);
    assert(spec_lex(a4) matches Ok(o) && o == all_out) by {
        assert(all_out + Seq::<TermV>::empty() =~= all_out);
    }
    // parse the emitted terms back into the same tree
    let p0 = parse_init();
    lemma_parse_from_snoc(p0, Seq::empty(), TermV::Open(name));
    assert(Seq::<TermV>::empty().push(TermV::Open(name)) =~= open_out);
    let p1 = parse_step(p0, TermV::Open(name))->Good_0;
    assert(parse_from(p0, open_out) == ParseOut::Good(p1));
    let p2 = if data.len() > 0 {
        lemma_parse_from_snoc(p0, open_out, TermV::Text(data));
        assert(open_out.push(TermV::Text(data)) =~= open_out + text_out);
        parse_step(p1, TermV::Text(data))->Good_0
    } else {
        assert(open_out + text_out =~= open_out);
        p1
    };
    assert(parse_from(p0, open_out + text_out) == ParseOut::Good(p2));
    lemma_parse_from_snoc(p0, open_out + text_out, TermV::Close(name));
    assert((open_out + text_out).push(TermV::Close(name)) =~= all_out);
    assert(p2.nodes[p2.stack.last()].name == name);
    let p3 = parse_step(p2, TermV::Close(name))->Good_0;
    assert(parse_from(p0, all_out) == ParseOut::Good(p3));
    assert(p3.nodes =~~= tree) by {
        assert(Seq::empty() + data =~= data);
    }
}

/// Law (round trip, nesting): a tree holding one element that wraps a
/// single leaf child serializes, renders, lexes and parses back to the
/// very same tree: nesting and text survive the round trip, and the
/// indentation the serializer adds is discarded again by the lexer.
#[verifier::rlimit(100)]
#[verifier::spinoff_prover]
pub proof fn lemma_nested_element_round_trip(outer: Seq<char>, inner: Seq<char>, data: Seq<char>)
    requires
        clean_name(outer),
        clean_name(inner),
        clean_text(data),
    ensures
        ({
            let tree = seq![
                NodeV {
                    name: "root"@,
                    data: Seq::empty(),
                    parent: Option::None,
                    children: seq![1],
                },
                NodeV { name: outer, data: Seq::empty(), parent: Some(0), children: seq![2] },
                NodeV { name: inner, data, parent: Some(1), children: Seq::empty() },
            ];
            let terms = ser_node(tree, 1, 0);
            let rendered = render_terms_up(terms, terms.len() as int);
            spec_lex(rendered) matches Ok(ts2) && spec_parse(ts2) matches ParseOut::Good(st)
                && st.nodes == tree
        }),
{
    let tree = seq![
        NodeV { name: "root"@, data: Seq::empty(), parent: Option::None, children: seq![1] },
        NodeV { name: outer, data: Seq::empty(), parent: Some(0), children: seq![2] },
        NodeV { name: inner, data, parent: Some(1), children: Seq::empty() },
    ];
    assert(tree_wf(tree));
    let terms = ser_node(tree, 1, 0);
    let inner_terms = seq![TermV::Text(indent(1)), TermV::Open(inner)] + (if data.len() > 0 {
        seq![TermV::Text(data)]
    } else {
        Seq::<TermV>::empty()
    }) + seq![TermV::Close(inner), TermV::Text(seq!['\n'])];
    assert(ser_kids(tree, 2, 0, 1) == Seq::<TermV>::empty());
    assert(ser_node(tree, 2, 1) =~= inner_terms);
    assert(ser_kids(tree, 1, 1, 0) == Seq::<TermV>::empty());
    assert(ser_kids(tree, 1, 0, 0) =~= inner_terms) by {
        assert(ser_node(tree, 2, 1) + Seq::<TermV>::empty() =~= ser_node(tree, 2, 1));
    }
    let expect_terms = seq![
        TermV::Text(Seq::empty()),
        TermV::Open(outer),
        TermV::Text(seq!['\n']),
    ] + inner_terms + seq![TermV::Text(Seq::empty()), TermV::Close(outer), TermV::Text(
        seq!['\n'],
    )];
    assert(indent(0) =~= Seq::<char>::empty());
    assert(terms =~= expect_terms);
    // the rendered text, piece by piece
    let ws1 = seq!['\n'] + indent(1);
    assert(ws1 =~= seq!['\n', ' ', ' ']) by {
        assert(indent(1) =~= seq![' ', ' ']);
    }
    let b1 = open_tag_txt(outer);
    let b2 = b1 + ws1;
    let b3 = b2 + open_tag_txt(inner);
    let b4 = b3 + data;
    let b5 = b4 + close_tag_txt(inner);
    let b6 = b5 + seq!['\n'];
    let b7 = b6 + close_tag_txt(outer);
    let b8 = b7 + seq!['\n'];
    let rendered = render_terms_up(terms, terms.len() as int);
    assert(rendered =~= b8) by {
        if data.len() > 0 {
            assert(terms.len() == 11);
            assert(render_terms_up(terms, 0) == Seq::<char>::empty());
            assert(render_terms_up(terms, 1) =~= Seq::<char>::empty());
            assert(render_terms_up(terms, 2) =~= b1);
            assert(render_terms_up(terms, 3) =~= b1 + seq!['\n']);
            assert(render_terms_up(terms, 4) =~= b2);
            assert(render_terms_up(terms, 5) =~= b3);
            assert(render_terms_up(terms, 6) =~= b4);
            assert(render_terms_up(terms, 7) =~= b5);
            assert(render_terms_up(terms, 8) =~= b6);
            assert(render_terms_up(terms, 9) =~= b6);
            assert(render_terms_up(terms, 10) =~= b7);
            assert(render_terms_up(terms, 11) =~= b8);
        } else {
            assert(terms.len() == 10);
            assert(data =~= Seq::<char>::empty());
            assert(render_terms_up(terms, 0) == Seq::<char>::empty());
            assert(render_terms_up(terms, 1) =~= Seq::<char>::empty());
            assert(render_terms_up(terms, 2) =~= b1);
            assert(render_terms_up(terms, 3) =~= b1 + seq!['\n']);
            assert(render_terms_up(terms, 4) =~= b2);
            assert(render_terms_up(terms, 5) =~= b3);
            assert(render_terms_up(terms, 6) =~= b5);
            assert(render_terms_up(terms, 7) =~= b6);
            assert(render_terms_up(terms, 8) =~= b6);
            assert(render_terms_up(terms, 9) =~= b7);
            assert(render_terms_up(terms, 10) =~= b8);
        }
    }
    // lex the pieces
    let st0 = lex_init();
    let o_outer = seq![TermV::Open(outer)];
    lemma_lex_open_tag(st0, outer);
    assert(flush_term(st0.acc) + o_outer =~= o_outer);
    let st_ws1 = LexSt { acc: TermV::Text(ws1), prev: ' ', skip: false };
    assert(lex_from(st0, b2) == Ok::<(LexSt, Seq<TermV>), Seq<char>>((st_ws1, o_outer))) by {
        lemma_lex_text_run(st_after_gt(), ws1);
        assert(ws1.last() == ' ');
        lemma_lex_from_app(st0, b1, ws1);
        assert(o_outer + Seq::<TermV>::empty() =~= o_outer);
    }
    let o_inner = o_outer + seq![TermV::Open(inner)];
    assert(lex_from(st0, b3) == Ok::<(LexSt, Seq<TermV>), Seq<char>>(
        (st_after_gt(), o_inner),
    )) by {
        lemma_lex_open_tag(st_ws1, inner);
        assert(forall|t: int| 0 <= t < ws1.len() ==> is_space(#[trigger] ws1[t]));
        lemma_trim_all_space(ws1);
        assert(flush_term(TermV::Text(ws1)) == Seq::<TermV>::empty());
        assert(Seq::<TermV>::empty() + seq![TermV::Open(inner)] =~= seq![TermV::Open(inner)]);
        lemma_lex_from_app(st0, b2, open_tag_txt(inner));
    }
    let st_d = if data.len() > 0 {
        LexSt { acc: TermV::Text(data), prev: data.last(), skip: false }
    } else {
        st_after_gt()
    };
    assert(lex_from(st0, b4) == Ok::<(LexSt, Seq<TermV>), Seq<char>>((st_d, o_inner))) by {
        if data.len() > 0 {
            lemma_lex_text_run(st_after_gt(), data);
            lemma_lex_from_app(st0, b3, data);
            assert(o_inner + Seq::<TermV>::empty() =~= o_inner);
        } else {
            assert(b4 =~= b3);
        }
    }
    let text_out = flush_term(st_d.acc);
    assert(text_out == if data.len() > 0 {
        seq![TermV::Text(data)]
    } else {
        Seq::<TermV>::empty()
    });
    let o_closed_inner = o_inner + text_out + seq![TermV::Close(inner)];
    assert(lex_from(st0, b5) == Ok::<(LexSt, Seq<TermV>), Seq<char>>(
        (st_after_gt(), o_closed_inner),
    )) by {
        lemma_lex_close_tag(st_d, inner);
        lemma_lex_from_app(st0, b4, close_tag_txt(inner));
        assert(o_inner + (text_out + seq![TermV::Close(inner)]) =~= o_closed_inner);
    }
    let st_nl = LexSt { acc: TermV::Text(seq!['\n']), prev: '\n', skip: false };
    assert(lex_from(st0, b6) == Ok::<(LexSt, Seq<TermV>), Seq<char>>(
        (st_nl, o_closed_inner),
    )) by {
        lemma_lex_text_run(st_after_gt(), seq!['\n']);
        lemma_lex_from_app(st0, b5, seq!['\n']);
        assert(o_closed_inner + Seq::<TermV>::empty() =~= o_closed_inner);
    }
    let all_out = o_closed_inner + seq![TermV::Close(outer)];
    assert(lex_from(st0, b7) == Ok::<(LexSt, Seq<TermV>), Seq<char>>(
        (st_after_gt(), all_out),
    )) by {
        lemma_lex_close_tag(st_nl, outer);
        assert(forall|t: int| 0 <= t < 1 ==> is_space(#[trigger] seq!['\n'][t]));
        lemma_trim_all_space(seq!['\n']);
        assert(flush_term(TermV::Text(seq!['\n'])) == Seq::<TermV>::empty());
        assert(Seq::<TermV>::empty() + seq![TermV::Close(outer)] =~= seq![
            TermV::Close(outer),
        ]);
        lemma_lex_from_app(st0, b6, close_tag_txt(outer));
    }
    lemma_lex_one(st_after_gt(), '\n');
    lemma_lex_from_app(st0, b7, seq!['\n']);
    assert(spec_lex(b8) matches Ok(o) && o == all_out) by {
        assert(all_out + Seq::<TermV>::empty() =~= all_out);
    }
    // parse the emitted terms back into the same tree
    let p0 = parse_init();
    lemma_parse_from_snoc(p0, Seq::empty(), TermV::Open(outer));
    assert(Seq::<TermV>::empty().push(TermV::Open(outer)) =~= o_outer);
    let p1 = parse_step(p0, TermV::Open(outer))->Good_0;
    assert(parse_from(p0, o_outer) == ParseOut::Good(p1));
    lemma_parse_from_snoc(p0, o_outer, TermV::Open(inner));
    assert(o_outer.push(TermV::Open(inner)) =~= o_inner);
    let p2 = parse_step(p1, TermV::Open(inner))->Good_0;
    assert(parse_from(p0, o_inner) == ParseOut::Good(p2));
    let p3 = if data.len() > 0 {
        lemma_parse_from_snoc(p0, o_inner, TermV::Text(data));
        assert(o_inner.push(TermV::Text(data)) =~= o_inner + text_out);
        parse_step(p2, TermV::Text(data))->Good_0
    } else {
        assert(o_inner + text_out =~= o_inner);
        p2
    };
    assert(parse_from(p0, o_inner + text_out) == ParseOut::Good(p3));
    lemma_parse_from_snoc(p0, o_inner + text_out, TermV::Close(inner));
    assert((o_inner + text_out).push(TermV::Close(inner)) =~= o_closed_inner);
    assert(p3.nodes[p3.stack.last()].name == inner);
    let p4 = parse_step(p3, TermV::Close(inner))->Good_0;
    assert(parse_from(p0, o_closed_inner) == ParseOut::Good(p4));
    lemma_parse_from_snoc(p0, o_closed_inner, TermV::Close(outer));
    assert(o_closed_inner.push(TermV::Close(outer)) =~= all_out);
    assert(p4.nodes[p4.stack.last()].name == outer);
    let p5 = parse_step(p4, TermV::Close(outer))->Good_0;
    assert(parse_from(p0, all_out) == ParseOut::Good(p5));
    assert(p5.nodes =~~= tree) by {
        assert(Seq::empty() + data =~= data);
    }
}

} // verus!
