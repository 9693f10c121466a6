//! A parser for an XML-like format: elements `<name>...</name>` nest, and
//! the text directly inside an element, with its newlines, carriage
//! returns and spaces removed, becomes the element's string. Each element
//! becomes an entry of its parent's map under the element's name.
use vstd::prelude::*;

use crate::string_parser::model_classes::{
    ParsedModel,
    ParsedString,
    empty_model,
    with_map_entry,
    with_string,
};
use crate::text::{chars_of, push_char};

verus! {

/// Why a text is refused; `line` counts the newlines before the place
/// where the problem was found.
#[derive(Debug, PartialEq, Eq, Structural)]
pub enum XmlError {
    /// The text ends with `<`.
    OpenBracketAtEnd,
    /// A closing tag comes where no element is open.
    ClosingTagWithoutOpening { line: usize },
    /// A closing tag names another element than the one that is open.
    MismatchedClosingTag { line: usize },
    /// A `>` comes without a `<` before it.
    CloseWithoutOpen { line: usize },
}

/// The state of the parser between two characters.
#[verifier::ext_equal]
pub struct XmlState {
    /// The text read since the last `<` or `>`.
    pub tmp: Seq<char>,
    /// The nodes of the open elements, below them the node of the document.
    pub nodes: Seq<ParsedModel>,
    /// The names of the open elements.
    pub open_tags: Seq<Seq<char>>,
    /// The texts read before each `<` inside an element.
    pub texts: Seq<Seq<char>>,
    /// 0 between tags, 1 inside an opening tag, 2 inside a closing tag.
    pub status: int,
    /// The number of newlines read.
    pub line: nat,
}

/// The state before the first character.
pub open spec fn xml_initial() -> XmlState {
    XmlState {
        tmp: Seq::empty(),
        nodes: seq![empty_model()],
        open_tags: Seq::empty(),
        texts: Seq::empty(),
        status: 0,
        line: 0,
    }
}

/// The effect of a `>` that ends a closing tag: the open element is
/// checked against the tag's name, gets the text read before the tag as
/// its string (when that text is not empty), and becomes an entry of its
/// parent's map.
pub open spec fn xml_close(st: XmlState) -> Result<XmlState, XmlError> {
    if st.open_tags.len() == 0 || st.texts.len() == 0 || st.nodes.len() < 2 {
        Err(XmlError::ClosingTagWithoutOpening { line: st.line as usize })
    } else if st.tmp != st.open_tags.last() {
        Err(XmlError::MismatchedClosingTag { line: st.line as usize })
    } else {
        let name = st.open_tags.last();
        let text = st.texts.last();
        let top = if text.len() > 0 {
            with_string(st.nodes.last(), text)
        } else {
            st.nodes.last()
        };
        let below = st.nodes.drop_last();
        let parent = with_map_entry(below.last(), name, top);
        Ok(
            XmlState {
                tmp: Seq::empty(),
                nodes: below.drop_last().push(parent),
                open_tags: st.open_tags.drop_last(),
                texts: st.texts.drop_last(),
                status: 0,
                line: st.line,
            },
        )
    }
}

/// One step of the parser at position `i`: the next position and state.
pub open spec fn xml_step(d: Seq<char>, i: int, st: XmlState) -> Result<(int, XmlState), XmlError> {
    let c = d[i];
    if c == '<' {
        if i == d.len() - 1 {
            Err(XmlError::OpenBracketAtEnd)
        } else {
            let texts = if st.open_tags.len() > 0 {
                st.texts.push(st.tmp)
            } else {
                st.texts
            };
            if d[i + 1] != '/' {
                Ok((i + 1, XmlState { tmp: Seq::empty(), texts: texts, status: 1, ..st }))
            } else if st.open_tags.len() == 0 {
                Err(XmlError::ClosingTagWithoutOpening { line: st.line as usize })
            } else {
                Ok((i + 2, XmlState { tmp: Seq::empty(), texts: texts, status: 2, ..st }))
            }
        }
    } else if c == '>' {
        if st.status == 1 {
            Ok(
                (
                    i + 1,
                    XmlState {
                        tmp: Seq::empty(),
                        nodes: st.nodes.push(empty_model()),
                        open_tags: st.open_tags.push(st.tmp),
                        status: 0,
                        ..st
                    },
                ),
            )
        } else if st.status == 2 {
            match xml_close(st) {
                Ok(next) => Ok((i + 1, next)),
                Err(e) => Err(e),
            }
        } else {
            Err(XmlError::CloseWithoutOpen { line: st.line as usize })
        }
    } else {
        let line = if c == '\n' { st.line + 1 } else { st.line };
        let tmp = if c != '\n' && c != '\r' && c != ' ' {
            st.tmp.push(c)
        } else {
            st.tmp
        };
        Ok((i + 1, XmlState { tmp: tmp, line: line, ..st }))
    }
}

/// A step moves forward, by one or two characters.
pub proof fn lemma_xml_step_advances(d: Seq<char>, i: int, st: XmlState)
    requires
        0 <= i < d.len(),
    ensures
        xml_step(d, i, st) matches Ok((j, _)) ==> i < j <= d.len(),
{
}

/// The state after running the parser from position `i` to the end.
pub open spec fn xml_run(d: Seq<char>, i: int, st: XmlState) -> Result<XmlState, XmlError>
    decreases d.len() - i,
{
    if !(0 <= i < d.len()) {
        Ok(st)
    } else {
        match xml_step(d, i, st) {
            Err(e) => Err(e),
            Ok((j, next)) => {
                proof {
                    lemma_xml_step_advances(d, i, st);
                }
                xml_run(d, j, next)
            },
        }
    }
}

/// What parsing `s` gives: the node of the document, whose map holds the
/// outer elements; or the reason why `s` is refused.
pub open spec fn spec_xml(s: Seq<char>) -> Result<ParsedModel, XmlError> {
    match xml_run(s, 0, xml_initial()) {
        Ok(st) => Ok(st.nodes.last()),
        Err(e) => Err(e),
    }
}

/// Whether every node of the open elements (and of the document) holds
/// neither a string nor a list yet.
pub open spec fn open_nodes_bare(st: XmlState) -> bool {
    &&& st.nodes.len() >= 1
    &&& forall|j: int| 0 <= j < st.nodes.len() ==> (#[trigger] st.nodes[j]).string is None
        && st.nodes[j].list is None
}

proof fn lemma_step_keeps_bare(d: Seq<char>, i: int, st: XmlState)
    requires
        0 <= i < d.len(),
        open_nodes_bare(st),
    ensures
        xml_step(d, i, st) matches Ok((_, next)) ==> open_nodes_bare(next),
{
    if d[i] == '>' && st.status == 2 {
        if let Ok(next) = xml_close(st) {
            let below = st.nodes.drop_last();
            assert(below.last() == st.nodes[st.nodes.len() - 2]);
            assert forall|j: int| 0 <= j < next.nodes.len() implies (#[trigger] next.nodes[j]).string is None
                && next.nodes[j].list is None by {
                if j < next.nodes.len() - 1 {
                    assert(next.nodes[j] == st.nodes[j]);
                }
            }
        }
    } else if d[i] == '>' && st.status == 1 {
        if let Ok((_, next)) = xml_step(d, i, st) {
            assert forall|j: int| 0 <= j < next.nodes.len() implies (#[trigger] next.nodes[j]).string is None
                && next.nodes[j].list is None by {
                if j < next.nodes.len() - 1 {
                    assert(next.nodes[j] == st.nodes[j]);
                }
            }
        }
    }
}

proof fn lemma_run_keeps_bare(d: Seq<char>, i: int, st: XmlState)
    requires
        open_nodes_bare(st),
    ensures
        xml_run(d, i, st) matches Ok(fin) ==> open_nodes_bare(fin),
    decreases d.len() - i,
{
    if 0 <= i < d.len() {
        lemma_step_keeps_bare(d, i, st);
        lemma_xml_step_advances(d, i, st);
        if let Ok((j, next)) = xml_step(d, i, st) {
            lemma_run_keeps_bare(d, j, next);
        }
    }
}

/// The node that parsing gives holds neither a string nor a list: the
/// format only ever builds maps, and texts become the strings of the
/// entries' nodes.
pub proof fn law_result_is_map_only(s: Seq<char>)
    ensures
        spec_xml(s) matches Ok(m) ==> m.string is None && m.list is None,
{
    assert(open_nodes_bare(xml_initial()));
    lemma_run_keeps_bare(s, 0, xml_initial());
    if let Ok(fin) = xml_run(s, 0, xml_initial()) {
        assert(fin.nodes.last() == fin.nodes[fin.nodes.len() - 1]);
    }
}

/// A character that is neither part of a tag's brackets nor dropped.
pub open spec fn is_plain_xml_char(c: char) -> bool {
    c != '<' && c != '>' && c != '\n' && c != '\r' && c != ' '
}

/// Text made only of plain characters.
pub open spec fn is_plain_xml_text(t: Seq<char>) -> bool {
    forall|k: int| 0 <= k < t.len() ==> is_plain_xml_char(#[trigger] t[k])
}

proof fn lemma_plain_run(d: Seq<char>, j: int, end: int, st: XmlState)
    requires
        0 <= j <= end <= d.len(),
        is_plain_xml_text(d.subrange(j, end)),
    ensures
        xml_run(d, j, st) == xml_run(d, end, XmlState { tmp: st.tmp + d.subrange(j, end), ..st }),
    decreases end - j,
{
    if j < end {
        assert(d.subrange(j, end)[0] == d[j]);
        let next = XmlState { tmp: st.tmp.push(d[j]), ..st };
        assert(xml_step(d, j, st) == Ok::<(int, XmlState), XmlError>((j + 1, next)));
        assert forall|k: int| 0 <= k < d.subrange(j + 1, end).len() implies is_plain_xml_char(
            #[trigger] d.subrange(j + 1, end)[k],
        ) by {
            assert(d.subrange(j + 1, end)[k] == d.subrange(j, end)[k + 1]);
        }
        lemma_plain_run(d, j + 1, end, next);
        assert(next.tmp + d.subrange(j + 1, end) =~= st.tmp + d.subrange(j, end));
    } else {
        assert(st.tmp + d.subrange(j, end) =~= st.tmp);
        assert(XmlState { tmp: st.tmp + d.subrange(j, end), ..st } =~= st);
    }
}

proof fn lemma_sub(d: Seq<char>, i: int, w: Seq<char>, a: int, b: int)
    requires
        0 <= i,
        i + w.len() <= d.len(),
        d.subrange(i, i + w.len()) == w,
        0 <= a <= b <= w.len(),
    ensures
        d.subrange(i + a, i + b) == w.subrange(a, b),
{
    assert(d.subrange(i + a, i + b) =~= w.subrange(a, b)) by {
        assert forall|k: int| 0 <= k < b - a implies d.subrange(i + a, i + b)[k] == w.subrange(a, b)[k] by {
            assert(d.subrange(i, i + w.len())[a + k] == d[i + a + k]);
        }
    }
}

/// Whether `name` may stand as the name of an element: plain characters,
/// not empty and not starting with `/`.
pub open spec fn is_element_name(name: Seq<char>) -> bool {
    name.len() > 0 && name[0] != '/' && is_plain_xml_text(name)
}

proof fn lemma_open_tag(d: Seq<char>, i: int, name: Seq<char>, st: XmlState)
    requires
        0 <= i,
        i + name.len() + 2 <= d.len(),
        d[i] == '<',
        d.subrange(i + 1, i + 1 + name.len()) == name,
        d[i + 1 + name.len()] == '>',
        is_element_name(name),
        st.status == 1 || st.status == 0 || st.status == 2,
    ensures
        xml_run(d, i, st) == xml_run(
            d,
            i + name.len() + 2,
            XmlState {
                tmp: Seq::empty(),
                nodes: st.nodes.push(empty_model()),
                open_tags: st.open_tags.push(name),
                texts: if st.open_tags.len() > 0 {
                    st.texts.push(st.tmp)
                } else {
                    st.texts
                },
                status: 0,
                line: st.line,
            },
        ),
{
    let n = name.len() as int;
    assert(d[i + 1] == name[0]) by {
        assert(d.subrange(i + 1, i + 1 + n)[0] == d[i + 1]);
    }
    let texts = if st.open_tags.len() > 0 {
        st.texts.push(st.tmp)
    } else {
        st.texts
    };
    let st1 = XmlState { tmp: Seq::empty(), texts: texts, status: 1, ..st };
    assert(xml_step(d, i, st) == Ok::<(int, XmlState), XmlError>((i + 1, st1)));
    lemma_plain_run(d, i + 1, i + 1 + n, st1);
    let st2 = XmlState { tmp: st1.tmp + name, ..st1 };
    assert(st1.tmp + d.subrange(i + 1, i + 1 + n) =~= name);
    assert(st2.tmp =~= name);
}

proof fn lemma_close_tag(d: Seq<char>, i: int, name: Seq<char>, st: XmlState)
    requires
        0 <= i,
        i + name.len() + 3 <= d.len(),
        d[i] == '<',
        d[i + 1] == '/',
        d.subrange(i + 2, i + 2 + name.len()) == name,
        d[i + 2 + name.len()] == '>',
        is_plain_xml_text(name),
        st.open_tags.len() > 0,
        st.open_tags.last() == name,
        st.nodes.len() >= 2,
    ensures
        xml_run(d, i, st) == xml_run(
            d,
            i + name.len() + 3,
            XmlState {
                tmp: Seq::empty(),
                nodes: st.nodes.drop_last().drop_last().push(
                    with_map_entry(
                        st.nodes.drop_last().last(),
                        name,
                        if st.tmp.len() > 0 {
                            with_string(st.nodes.last(), st.tmp)
                        } else {
                            st.nodes.last()
                        },
                    ),
                ),
                open_tags: st.open_tags.drop_last(),
                texts: st.texts,
                status: 0,
                line: st.line,
            },
        ),
{
    let n = name.len() as int;
    let st1 = XmlState { tmp: Seq::empty(), texts: st.texts.push(st.tmp), status: 2, ..st };
    assert(xml_step(d, i, st) == Ok::<(int, XmlState), XmlError>((i + 2, st1)));
    lemma_plain_run(d, i + 2, i + 2 + n, st1);
    let st2 = XmlState { tmp: st1.tmp + name, ..st1 };
    assert(st1.tmp + d.subrange(i + 2, i + 2 + n) =~= name);
    assert(st2.tmp =~= name);
    assert(st2.texts.drop_last() =~= st.texts);
    assert(st2.texts.last() == st.tmp);
}

/// Elements nested one in the other, named by `names` from the outside in,
/// around the text `t`.
pub open spec fn nested_text(names: Seq<Seq<char>>, t: Seq<char>) -> Seq<char>
    decreases names.len(),
{
    if names.len() == 0 {
        t
    } else {
        seq!['<'] + names[0] + seq!['>'] + nested_text(names.drop_first(), t) + seq!['<', '/']
            + names[0] + seq!['>']
    }
}

/// The node whose map holds the outermost of the elements named by
/// `names`, each element's node holding the next one in its map and the
/// innermost one holding `t` as its string.
pub open spec fn nested_node(names: Seq<Seq<char>>, t: Seq<char>) -> ParsedModel
    decreases names.len(),
{
    if names.len() == 0 {
        with_string(empty_model(), t)
    } else {
        with_map_entry(empty_model(), names[0], nested_node(names.drop_first(), t))
    }
}

/// `n` empty texts.
spec fn blanks(n: nat) -> Seq<Seq<char>> {
    Seq::new(n, |_k: int| Seq::<char>::empty())
}

proof fn lemma_nest(d: Seq<char>, i: int, names: Seq<Seq<char>>, t: Seq<char>, st: XmlState)
    requires
        names.len() >= 1,
        forall|k: int| 0 <= k < names.len() ==> is_element_name(#[trigger] names[k]),
        t.len() > 0,
        is_plain_xml_text(t),
        0 <= i,
        i + nested_text(names, t).len() <= d.len(),
        d.subrange(i, i + nested_text(names, t).len()) == nested_text(names, t),
        st.tmp == Seq::<char>::empty(),
        st.nodes.len() >= 1,
        st.status == 0,
    ensures
        xml_run(d, i, st) == xml_run(
            d,
            i + nested_text(names, t).len(),
            XmlState {
                tmp: Seq::empty(),
                nodes: st.nodes.drop_last().push(
                    with_map_entry(st.nodes.last(), names[0], nested_node(names.drop_first(), t)),
                ),
                open_tags: st.open_tags,
                texts: st.texts + blanks(
                    (names.len() - 1 + if st.open_tags.len() > 0 {
                        1int
                    } else {
                        0int
                    }) as nat,
                ),
                status: 0,
                line: st.line,
            },
        ),
    decreases names.len(),
{
    let w = nested_text(names, t);
    let n0 = names[0];
    let n = n0.len() as int;
    let rest = names.drop_first();
    let inner = nested_text(rest, t);
    let li = inner.len() as int;
    assert(is_element_name(n0));
    assert(w == seq!['<'] + n0 + seq!['>'] + inner + seq!['<', '/'] + n0 + seq!['>']);
    assert(w.len() == 2 * n + li + 5);
    assert(d[i] == w[0]) by {
        assert(d.subrange(i, i + w.len())[0] == d[i]);
    }
    lemma_sub(d, i, w, 1, 1 + n);
    assert(w.subrange(1, 1 + n) =~= n0);
    assert(d[i + 1 + n] == w[1 + n]) by {
        assert(d.subrange(i, i + w.len())[1 + n] == d[i + 1 + n]);
    }
    lemma_open_tag(d, i, n0, st);
    let texts1 = if st.open_tags.len() > 0 {
        st.texts.push(st.tmp)
    } else {
        st.texts
    };
    let st1 = XmlState {
        tmp: Seq::empty(),
        nodes: st.nodes.push(empty_model()),
        open_tags: st.open_tags.push(n0),
        texts: texts1,
        status: 0,
        line: st.line,
    };
    let j = i + n + 2;
    lemma_sub(d, i, w, n + 2, n + 2 + li);
    assert(w.subrange(n + 2, n + 2 + li) =~= inner);
    let c = j + li;
    lemma_sub(d, i, w, n + 4 + li, 2 * n + 4 + li);
    assert(w.subrange(n + 4 + li, 2 * n + 4 + li) =~= n0);
    assert(d[c] == w[n + 2 + li] && d[c + 1] == w[n + 3 + li] && d[c + 2 + n] == w[2 * n + 4 + li]) by {
        assert(d.subrange(i, i + w.len())[n + 2 + li] == d[c]);
        assert(d.subrange(i, i + w.len())[n + 3 + li] == d[c + 1]);
        assert(d.subrange(i, i + w.len())[2 * n + 4 + li] == d[c + 2 + n]);
    }
    if names.len() == 1 {
        assert(inner == t);
        lemma_plain_run(d, j, c, st1);
        let st2 = XmlState { tmp: st1.tmp + t, ..st1 };
        assert(st1.tmp + d.subrange(j, c) =~= t);
        assert(st2.tmp =~= t);
        lemma_close_tag(d, c, n0, st2);
        assert(st2.nodes.drop_last() =~= st.nodes);
        assert(st2.nodes.drop_last().drop_last() =~= st.nodes.drop_last());
        assert(st2.open_tags.drop_last() =~= st.open_tags);
        assert(nested_node(rest, t) == with_string(empty_model(), t));
        assert(texts1 =~= st.texts + blanks(
            (names.len() - 1 + if st.open_tags.len() > 0 {
                1int
            } else {
                0int
            }) as nat,
        ));
    } else {
        assert forall|k: int| 0 <= k < rest.len() implies is_element_name(#[trigger] rest[k]) by {
            assert(rest[k] == names[k + 1]);
        }
        lemma_nest(d, j, rest, t, st1);
        let st2 = XmlState {
            tmp: Seq::empty(),
            nodes: st1.nodes.drop_last().push(
                with_map_entry(st1.nodes.last(), rest[0], nested_node(rest.drop_first(), t)),
            ),
            open_tags: st1.open_tags,
            texts: texts1 + blanks((rest.len() - 1 + 1) as nat),
            status: 0,
            line: st.line,
        };
        lemma_close_tag(d, c, n0, st2);
        assert(st2.nodes.drop_last() =~= st.nodes);
        assert(st2.nodes.drop_last().drop_last() =~= st.nodes.drop_last());
        assert(st2.open_tags.drop_last() =~= st.open_tags);
        assert(nested_node(rest, t) == with_map_entry(
            empty_model(),
            rest[0],
            nested_node(rest.drop_first(), t),
        ));
        assert(texts1 + blanks((rest.len() - 1 + 1) as nat) =~= st.texts + blanks(
            (names.len() - 1 + if st.open_tags.len() > 0 {
                1int
            } else {
                0int
            }) as nat,
        ));
    }
}

/// Elements nested one in the other, with names of plain characters (not
/// starting with `/`) and a non-empty plain text in the innermost one:
/// each closed element becomes an entry of the map of its direct parent,
/// the outermost one of the document's map, and the innermost one holds
/// the text as its string.
pub proof fn law_nested_elements(names: Seq<Seq<char>>, t: Seq<char>)
    requires
        names.len() >= 1,
        forall|k: int| 0 <= k < names.len() ==> is_element_name(#[trigger] names[k]),
        t.len() > 0,
        is_plain_xml_text(t),
    ensures
        spec_xml(nested_text(names, t)) == Ok::<ParsedModel, XmlError>(nested_node(names, t)),
{
    let d = nested_text(names, t);
    assert(d.subrange(0, d.len() as int) =~= d);
    lemma_nest(d, 0, names, t, xml_initial());
    let fin = XmlState {
        tmp: Seq::empty(),
        nodes: xml_initial().nodes.drop_last().push(
            with_map_entry(empty_model(), names[0], nested_node(names.drop_first(), t)),
        ),
        open_tags: Seq::empty(),
        texts: Seq::<Seq<char>>::empty() + blanks((names.len() - 1) as nat),
        status: 0,
        line: 0,
    };
    assert(xml_run(d, d.len() as int, fin) == Ok::<XmlState, XmlError>(fin));
    assert(fin.nodes.last() == nested_node(names, t));
}

/// An element `<name>text</name>`, with a name and a text of plain
/// characters, the name not starting with `/` and the text not empty,
/// parses as a document whose map holds, under the name, a node with the
/// text as its string.
pub proof fn law_single_element(name: Seq<char>, text: Seq<char>)
    requires
        name.len() > 0,
        name[0] != '/',
        text.len() > 0,
        is_plain_xml_text(name),
        is_plain_xml_text(text),
    ensures
        spec_xml(seq!['<'] + name + seq!['>'] + text + seq!['<', '/'] + name + seq!['>']) == Ok::<
            ParsedModel,
            XmlError,
        >(with_map_entry(empty_model(), name, with_string(empty_model(), text))),
{
    let d = seq!['<'] + name + seq!['>'] + text + seq!['<', '/'] + name + seq!['>'];
    let n = name.len() as int;
    let t = text.len() as int;
    // positions: `<` at 0, name at 1, `>` at 1 + n, text at 2 + n,
    // `</` at 2 + n + t, name at 4 + n + t, `>` at 4 + 2n + t
    let p1 = 1 + n;
    let p2 = 2 + n + t;
    let p3 = 4 + 2 * n + t;
    assert(d.len() == p3 + 1);
    assert(d.subrange(1, p1) =~= name);
    assert(d.subrange(p1 + 1, p2) =~= text);
    assert(d.subrange(p2 + 2, p3) =~= name);
    assert(d[0] == '<');
    assert(d[1] == name[0]);
    assert(d[p1] == '>');
    assert(d[p2] == '<');
    assert(d[p2 + 1] == '/');
    assert(d[p3] == '>');
    let st0 = xml_initial();
    let st1 = XmlState { tmp: Seq::empty(), status: 1, ..st0 };
    assert(xml_step(d, 0, st0) == Ok::<(int, XmlState), XmlError>((1, st1)));
    lemma_plain_run(d, 1, p1, st1);
    let st2 = XmlState { tmp: st1.tmp + name, ..st1 };
    assert(st1.tmp + d.subrange(1, p1) =~= name);
    let st3 = XmlState {
        tmp: Seq::empty(),
        nodes: st2.nodes.push(empty_model()),
        open_tags: st2.open_tags.push(name),
        status: 0,
        ..st2
    };
    assert(st2.tmp =~= name);
    assert(xml_step(d, p1, st2) == Ok::<(int, XmlState), XmlError>((p1 + 1, st3)));
    lemma_plain_run(d, p1 + 1, p2, st3);
    let st4 = XmlState { tmp: st3.tmp + text, ..st3 };
    assert(st3.tmp + d.subrange(p1 + 1, p2) =~= text);
    let st5 = XmlState { tmp: Seq::empty(), texts: st4.texts.push(st4.tmp), status: 2, ..st4 };
    assert(xml_step(d, p2, st4) == Ok::<(int, XmlState), XmlError>((p2 + 2, st5)));
    lemma_plain_run(d, p2 + 2, p3, st5);
    let st6 = XmlState { tmp: st5.tmp + name, ..st5 };
    assert(st5.tmp + d.subrange(p2 + 2, p3) =~= name);
    assert(st6.tmp =~= name);
    assert(st6.open_tags.last() == name);
    assert(st6.texts.last() =~= text);
    assert(st6.nodes.len() == 2);
    let top = with_string(empty_model(), text);
    let parent = with_map_entry(empty_model(), name, top);
    let st7 = XmlState {
        tmp: Seq::empty(),
        nodes: seq![parent],
        open_tags: Seq::empty(),
        texts: Seq::empty(),
        status: 0,
        line: 0,
    };
    assert(xml_close(st6) == Ok::<XmlState, XmlError>(st7)) by {
        assert(st6.nodes.drop_last().drop_last().push(parent) =~= seq![parent]);
        assert(st6.open_tags.drop_last() =~= Seq::<Seq<char>>::empty());
        assert(st6.texts.drop_last() =~= Seq::<Seq<char>>::empty());
    }
    assert(xml_step(d, p3, st6) == Ok::<(int, XmlState), XmlError>((p3 + 1, st7)));
    assert(xml_run(d, p3 + 1, st7) == Ok::<XmlState, XmlError>(st7));
}

/// Whether the tree below `m`, down to `depth` levels of maps, is one that
/// the format builds: no node holds a list, every string is a non-empty
/// text of plain characters, and every key is a text of plain characters.
pub open spec fn xml_tree_ok(m: ParsedModel, depth: nat) -> bool
    decreases depth,
{
    &&& m.list is None
    &&& (m.string matches Some(t) ==> t.len() > 0 && is_plain_xml_text(t))
    &&& (depth > 0 && m.map is Some) ==> forall|k: Seq<char>|
        #[trigger] m.map.unwrap().contains_key(k) ==> is_plain_xml_text(k) && xml_tree_ok(
            m.map.unwrap()[k],
            (depth - 1) as nat,
        )
}

/// Whether every node, name and text that a state holds is one that the
/// format builds.
pub open spec fn xml_state_ok(st: XmlState) -> bool {
    &&& st.nodes.len() >= 1
    &&& forall|j: int, n: nat| 0 <= j < st.nodes.len() ==> #[trigger] xml_tree_ok(st.nodes[j], n)
    &&& forall|j: int| 0 <= j < st.open_tags.len() ==> is_plain_xml_text(#[trigger] st.open_tags[j])
    &&& forall|j: int| 0 <= j < st.texts.len() ==> is_plain_xml_text(#[trigger] st.texts[j])
    &&& is_plain_xml_text(st.tmp)
}

proof fn lemma_entry_tree_ok(m: ParsedModel, k: Seq<char>, v: ParsedModel)
    requires
        forall|n: nat| #[trigger] xml_tree_ok(m, n),
        forall|n: nat| #[trigger] xml_tree_ok(v, n),
        is_plain_xml_text(k),
    ensures
        forall|n: nat| #[trigger] xml_tree_ok(with_map_entry(m, k, v), n),
{
    assert forall|n: nat| #[trigger] xml_tree_ok(with_map_entry(m, k, v), n) by {
        assert(xml_tree_ok(m, n));
        if n > 0 {
            assert(xml_tree_ok(v, (n - 1) as nat));
            let e = with_map_entry(m, k, v).map.unwrap();
            assert forall|k2: Seq<char>| #[trigger] e.contains_key(k2) implies is_plain_xml_text(k2)
                && xml_tree_ok(e[k2], (n - 1) as nat) by {
                if k2 != k {
                    assert(m.map.unwrap().contains_key(k2));
                }
            }
        }
    }
}

proof fn lemma_step_keeps_ok(d: Seq<char>, i: int, st: XmlState)
    requires
        0 <= i < d.len(),
        xml_state_ok(st),
    ensures
        xml_step(d, i, st) matches Ok((_, next)) ==> xml_state_ok(next),
{
    let c = d[i];
    if c == '<' {
        if let Ok((_, next)) = xml_step(d, i, st) {
            assert forall|j: int| 0 <= j < next.texts.len() implies is_plain_xml_text(
                #[trigger] next.texts[j],
            ) by {
                if j < st.texts.len() {
                    assert(next.texts[j] == st.texts[j]);
                }
            }
        }
    } else if c == '>' {
        if st.status == 1 {
            if let Ok((_, next)) = xml_step(d, i, st) {
                assert forall|j: int, n: nat| 0 <= j < next.nodes.len() implies #[trigger] xml_tree_ok(
                    next.nodes[j],
                    n,
                ) by {
                    if j < st.nodes.len() {
                        assert(next.nodes[j] == st.nodes[j]);
                    }
                }
                assert forall|j: int| 0 <= j < next.open_tags.len() implies is_plain_xml_text(
                    #[trigger] next.open_tags[j],
                ) by {
                    if j < st.open_tags.len() {
                        assert(next.open_tags[j] == st.open_tags[j]);
                    }
                }
            }
        } else if st.status == 2 {
            if let Ok(next) = xml_close(st) {
                let name = st.open_tags.last();
                let text = st.texts.last();
                let last = st.nodes.last();
                let below = st.nodes.drop_last();
                assert(is_plain_xml_text(name));
                assert(is_plain_xml_text(text));
                let top = if text.len() > 0 {
                    with_string(last, text)
                } else {
                    last
                };
                assert forall|n: nat| #[trigger] xml_tree_ok(top, n) by {
                    assert(xml_tree_ok(st.nodes[st.nodes.len() - 1], n));
                }
                assert forall|n: nat| #[trigger] xml_tree_ok(below.last(), n) by {
                    assert(xml_tree_ok(st.nodes[st.nodes.len() - 2], n));
                }
                lemma_entry_tree_ok(below.last(), name, top);
                assert forall|j: int, n: nat| 0 <= j < next.nodes.len() implies #[trigger] xml_tree_ok(
                    next.nodes[j],
                    n,
                ) by {
                    if j < next.nodes.len() - 1 {
                        assert(next.nodes[j] == st.nodes[j]);
                    }
                }
                assert forall|j: int| 0 <= j < next.open_tags.len() implies is_plain_xml_text(
                    #[trigger] next.open_tags[j],
                ) by {
                    assert(next.open_tags[j] == st.open_tags[j]);
                }
                assert forall|j: int| 0 <= j < next.texts.len() implies is_plain_xml_text(
                    #[trigger] next.texts[j],
                ) by {
                    assert(next.texts[j] == st.texts[j]);
                }
            }
        }
    } else {
        if let Ok((_, next)) = xml_step(d, i, st) {
            assert forall|k: int| 0 <= k < next.tmp.len() implies is_plain_xml_char(
                #[trigger] next.tmp[k],
            ) by {
                if k < st.tmp.len() {
                    assert(next.tmp[k] == st.tmp[k]);
                }
            }
        }
    }
}

proof fn lemma_run_keeps_ok(d: Seq<char>, i: int, st: XmlState)
    requires
        xml_state_ok(st),
    ensures
        xml_run(d, i, st) matches Ok(fin) ==> xml_state_ok(fin),
    decreases d.len() - i,
{
    if 0 <= i < d.len() {
        lemma_step_keeps_ok(d, i, st);
        lemma_xml_step_advances(d, i, st);
        if let Ok((j, next)) = xml_step(d, i, st) {
            lemma_run_keeps_ok(d, j, next);
        }
    }
}

/// The whole tree that parsing gives is one that the format builds, at
/// every depth: no node holds a list, every string is a non-empty text
/// without spaces, newlines, carriage returns, `<` or `>`, and every key
/// is a text without them.
pub proof fn law_tree_shape(s: Seq<char>)
    ensures
        spec_xml(s) matches Ok(m) ==> forall|n: nat| #[trigger] xml_tree_ok(m, n),
{
    let st0 = xml_initial();
    assert forall|j: int, n: nat| 0 <= j < st0.nodes.len() implies #[trigger] xml_tree_ok(
        st0.nodes[j],
        n,
    ) by {
        assert(st0.nodes[j] == empty_model());
    }
    assert(xml_state_ok(st0));
    lemma_run_keeps_ok(s, 0, st0);
    if let Ok(fin) = xml_run(s, 0, st0) {
        assert forall|n: nat| #[trigger] xml_tree_ok(fin.nodes.last(), n) by {
            assert(xml_tree_ok(fin.nodes[fin.nodes.len() - 1], n));
        }
    }
}

/// The state that the parser's executable variables stand for.
pub open spec fn xml_state_of(
    tmp: Seq<char>,
    nodes: Seq<ParsedString>,
    open_tags: Seq<String>,
    texts: Seq<String>,
    status: u8,
    line: usize,
) -> XmlState {
    XmlState {
        tmp: tmp,
        nodes: nodes.map_values(|p: ParsedString| p@),
        open_tags: open_tags.map_values(|t: String| t@),
        texts: texts.map_values(|t: String| t@),
        status: status as int,
        line: line as nat,
    }
}

/// Whether an executable result agrees with a specified one.
pub open spec fn xml_result_agrees(r: Result<ParsedString, XmlError>, s: Result<ParsedModel, XmlError>) -> bool {
    match (r, s) {
        (Ok(v), Ok(m)) => v@ == m,
        (Err(e), Err(f)) => e == f,
        _ => false,
    }
}

/// Parses `s`, which must be a text that is accepted: the node of the
/// document, whose map holds one entry per outer element.
pub fn parse(s: &String) -> (r: Result<ParsedString, XmlError>)
    requires
        spec_xml(s@) is Ok,
    ensures
        r is Ok,
        r->Ok_0@ == spec_xml(s@)->Ok_0,
{
    try_parse(s)
}

/// Parses `s`: the node of the document, whose map holds one entry per
/// outer element; or the reason why `s` is refused.
pub fn try_parse(s: &String) -> (r: Result<ParsedString, XmlError>)
    ensures
        xml_result_agrees(r, spec_xml(s@)),
{
    let raw_data: Vec<char> = chars_of(s.as_str());
    let n: usize = raw_data.len();
    let mut tmp: String = String::new();
    let mut ps_stack: Vec<ParsedString> = Vec::new();
    ps_stack.push(ParsedString::new());
    let mut entry_desc_stack: Vec<String> = Vec::new();
    let mut entry_stack: Vec<String> = Vec::new();
    let mut parse_status: u8 = 0;
    let mut current_line: usize = 0;
    let mut i: usize = 0;
    proof {
        assert(xml_state_of(tmp@, ps_stack@, entry_desc_stack@, entry_stack@, parse_status, current_line)
            =~= xml_initial());
    }
    while i < n
        invariant
            n == raw_data@.len(),
            raw_data@ == s@,
            i <= n,
            current_line <= i,
            ps_stack@.len() >= 1,
            xml_run(raw_data@, 0, xml_initial()) == xml_run(
                raw_data@,
                i as int,
                xml_state_of(tmp@, ps_stack@, entry_desc_stack@, entry_stack@, parse_status, current_line),
            ),
        decreases n - i,
    {
        let ghost st = xml_state_of(
            tmp@,
            ps_stack@,
            entry_desc_stack@,
            entry_stack@,
            parse_status,
            current_line,
        );
        let ghost i0 = i as int;
        let c = raw_data[i];
        assert(xml_run(raw_data@, i0, st) == match xml_step(raw_data@, i0, st) {
            Err(e) => Err(e),
            Ok((j, next)) => xml_run(raw_data@, j, next),
        });
        if c == '<' {
            if i == n - 1 {
                return Err(XmlError::OpenBracketAtEnd);
            }
            if entry_desc_stack.len() > 0 {
                entry_stack.push(tmp);
            }
            tmp = String::new();
            if raw_data[i + 1] != '/' {
                parse_status = 1;
                i = i + 1;
            } else {
                if entry_desc_stack.len() == 0 {
                    return Err(XmlError::ClosingTagWithoutOpening { line: current_line });
                }
                parse_status = 2;
                i = i + 2;
            }
            assert(entry_stack@.map_values(|t: String| t@) =~= (if st.open_tags.len() > 0 {
                st.texts.push(st.tmp)
            } else {
                st.texts
            }));
            assert(xml_step(raw_data@, i0, st) == Ok::<(int, XmlState), XmlError>((
                i as int,
                xml_state_of(tmp@, ps_stack@, entry_desc_stack@, entry_stack@, parse_status, current_line),
            )));
        } else if c == '>' {
            if parse_status == 1 {
                ps_stack.push(ParsedString::new());
                entry_desc_stack.push(tmp);
                assert(ps_stack@.map_values(|p: ParsedString| p@) =~= st.nodes.push(empty_model()));
                assert(entry_desc_stack@.map_values(|t: String| t@) =~= st.open_tags.push(st.tmp));
            } else if parse_status == 2 {
                if entry_desc_stack.len() == 0 || entry_stack.len() == 0 || ps_stack.len() < 2 {
                    return Err(XmlError::ClosingTagWithoutOpening { line: current_line });
                }
                let v = match entry_desc_stack.pop() {
                    Some(v) => v,
                    None => unreached(),
                };
                assert(v@ == st.open_tags.last());
                assert(entry_desc_stack@.map_values(|t: String| t@) =~= st.open_tags.drop_last());
                if !(tmp == v) {
                    return Err(XmlError::MismatchedClosingTag { line: current_line });
                }
                let p = match entry_stack.pop() {
                    Some(p) => p,
                    None => unreached(),
                };
                assert(p@ == st.texts.last());
                assert(entry_stack@.map_values(|t: String| t@) =~= st.texts.drop_last());
                let mut top = match ps_stack.pop() {
                    Some(t) => t,
                    None => unreached(),
                };
                assert(top@ == st.nodes.last());
                assert(ps_stack@.map_values(|q: ParsedString| q@) =~= st.nodes.drop_last());
                if !p.as_str().is_empty() {
                    top.set_string(p);
                }
                let mut parent = match ps_stack.pop() {
                    Some(t) => t,
                    None => unreached(),
                };
                assert(parent@ == st.nodes.drop_last().last());
                assert(ps_stack@.map_values(|q: ParsedString| q@) =~= st.nodes.drop_last().drop_last());
                parent.add_to_hashmap(v, top);
                ps_stack.push(parent);
                assert(xml_close(st) is Ok);
                assert(ps_stack@.map_values(|q: ParsedString| q@) =~= xml_close(st)->Ok_0.nodes);
            } else {
                return Err(XmlError::CloseWithoutOpen { line: current_line });
            }
            tmp = String::new();
            parse_status = 0;
            i = i + 1;
            assert(xml_step(raw_data@, i0, st) == Ok::<(int, XmlState), XmlError>((
                i as int,
                xml_state_of(tmp@, ps_stack@, entry_desc_stack@, entry_stack@, parse_status, current_line),
            )));
        } else {
            if c == '\n' {
                current_line = current_line + 1;
            }
            if c != '\n' && c != '\r' && c != ' ' {
                push_char(&mut tmp, c);
            }
            i = i + 1;
            assert(xml_step(raw_data@, i0, st) == Ok::<(int, XmlState), XmlError>((
                i as int,
                xml_state_of(tmp@, ps_stack@, entry_desc_stack@, entry_stack@, parse_status, current_line),
            )));
        }
    }
    match ps_stack.pop() {
        Some(top) => Ok(top),
        None => unreached(),
    }
}

} // verus!
