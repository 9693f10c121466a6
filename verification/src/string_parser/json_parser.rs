//! A parser for a JSON-like format: lists in `[...]`, maps in `{...}` with
//! quoted keys, and values that are either nested lists and maps or text,
//! quoted or bare. The text of values is kept as it stands; no number,
//! boolean or escape is interpreted.
use vstd::prelude::*;

use crate::string_parser::model_classes::{
    ParsedModel,
    ParsedString,
    empty_model,
    with_list_item,
    with_map_entry,
    with_string,
};
use crate::text::push_char;

verus! {

/// The characters that are dropped outside quotes.
pub open spec fn is_json_space(c: char) -> bool {
    c == '\n' || c == '\r' || c == '\t' || c == ' '
}

/// The characters of `s` that are kept, and whether `s` ends inside quotes.
/// A quote opens or closes a quoted stretch; inside one every character is
/// kept, outside one the spaces of `is_json_space` are dropped. The quotes
/// themselves are kept.
pub open spec fn strip_state(s: Seq<char>) -> (Seq<char>, bool)
    decreases s.len(),
{
    if s.len() == 0 {
        (Seq::empty(), false)
    } else {
        let (kept, open) = strip_state(s.drop_last());
        let c = s.last();
        let now_open = if c == '"' { !open } else { open };
        if now_open || !is_json_space(c) {
            (kept.push(c), now_open)
        } else {
            (kept, now_open)
        }
    }
}

/// `s` without its spaces outside quotes.
pub open spec fn strip_spaces(s: Seq<char>) -> Seq<char> {
    strip_state(s).0
}

proof fn lemma_strip_state_stable(s: Seq<char>)
    ensures
        strip_state(strip_spaces(s)) == strip_state(s),
    decreases s.len(),
{
    if s.len() > 0 {
        let rest = s.drop_last();
        lemma_strip_state_stable(rest);
        let (kept, open) = strip_state(rest);
        let c = s.last();
        let now_open = if c == '"' { !open } else { open };
        if now_open || !is_json_space(c) {
            assert(kept.push(c).drop_last() =~= kept);
        }
    }
}

/// Spaces outside quotes do not matter: a text parses as the same text
/// with them dropped does.
pub proof fn law_spaces_ignored(s: Seq<char>)
    ensures
        spec_json(strip_spaces(s)) == spec_json(s),
{
    lemma_strip_state_stable(s);
}

/// The number of quotes in `s`.
pub open spec fn quote_count(s: Seq<char>) -> nat
    decreases s.len(),
{
    if s.len() == 0 {
        0
    } else {
        quote_count(s.drop_last()) + if s.last() == '"' {
            1nat
        } else {
            0nat
        }
    }
}

/// What stripping keeps of `b` and whether it ends inside quotes, when it
/// starts inside quotes exactly when `open` holds.
spec fn strip_from(b: Seq<char>, open: bool) -> (Seq<char>, bool)
    decreases b.len(),
{
    if b.len() == 0 {
        (Seq::empty(), open)
    } else {
        let (kept, o) = strip_from(b.drop_last(), open);
        let c = b.last();
        let now_open = if c == '"' { !o } else { o };
        if now_open || !is_json_space(c) {
            (kept.push(c), now_open)
        } else {
            (kept, now_open)
        }
    }
}

proof fn lemma_strip_open(s: Seq<char>)
    ensures
        strip_state(s).1 == (quote_count(s) % 2 == 1),
    decreases s.len(),
{
    if s.len() > 0 {
        lemma_strip_open(s.drop_last());
    }
}

proof fn lemma_strip_concat(a: Seq<char>, b: Seq<char>)
    ensures
        strip_state(a + b) == (
            strip_state(a).0 + strip_from(b, strip_state(a).1).0,
            strip_from(b, strip_state(a).1).1,
        ),
    decreases b.len(),
{
    if b.len() == 0 {
        assert(a + b =~= a);
        assert(strip_state(a).0 + Seq::<char>::empty() =~= strip_state(a).0);
    } else {
        lemma_strip_concat(a, b.drop_last());
        assert((a + b).drop_last() =~= a + b.drop_last());
        assert((a + b).last() == b.last());
        let (k, o) = strip_from(b.drop_last(), strip_state(a).1);
        assert(strip_state(a).0 + k.push(b.last()) =~= (strip_state(a).0 + k).push(b.last()));
    }
}

/// A space, newline, carriage return or tab outside quotes does not
/// matter: deleting it from the text leaves what parsing gives unchanged.
pub proof fn law_space_outside_quotes_ignored(a: Seq<char>, c: char, b: Seq<char>)
    requires
        c == ' ' || c == '\n' || c == '\r' || c == '\t',
        quote_count(a) % 2 == 0,
    ensures
        spec_json(a + seq![c] + b) == spec_json(a + b),
{
    lemma_strip_open(a);
    let a1 = a + seq![c];
    assert(a1.drop_last() =~= a);
    assert(strip_state(a1) == strip_state(a));
    lemma_strip_concat(a1, b);
    lemma_strip_concat(a, b);
}

/// The first position at or after `j` that holds a quote.
pub open spec fn quote_from(d: Seq<char>, j: int) -> Option<int>
    decreases d.len() - j,
{
    if !(0 <= j < d.len()) {
        None
    } else if d[j] == '"' {
        Some(j)
    } else {
        quote_from(d, j + 1)
    }
}

/// The quote found is at or after `j`, and none comes before it.
pub proof fn lemma_quote_from(d: Seq<char>, j: int)
    ensures
        quote_from(d, j) matches Some(q) ==> j <= q < d.len() && d[q] == '"',
        quote_from(d, j) matches Some(q) ==> forall|l: int| j <= l < q ==> d[l] != '"',
    decreases d.len() - j,
{
    if 0 <= j < d.len() && d[j] != '"' {
        lemma_quote_from(d, j + 1);
    }
}

/// Reads a text value from position `i`, where `tmp` holds the text so far
/// and `open` says whether a quote has been opened. A bare text ends before
/// the first `,`, `}` or `]`; a quoted one ends after its closing quote; a
/// quote after bare text is refused. The result is the position after the
/// value and its text.
pub open spec fn scan_text(d: Seq<char>, i: int, tmp: Seq<char>, open: bool) -> Option<(int, Seq<char>)>
    decreases d.len() - i,
{
    if !(0 <= i < d.len()) {
        None
    } else {
        let c = d[i];
        if open {
            if c == '"' {
                Some((i + 1, tmp))
            } else {
                scan_text(d, i + 1, tmp.push(c), true)
            }
        } else if c == '"' {
            if tmp.len() > 0 {
                None
            } else {
                scan_text(d, i + 1, tmp, true)
            }
        } else if c == ',' || c == '}' || c == ']' {
            Some((i, tmp))
        } else {
            scan_text(d, i + 1, tmp.push(c), false)
        }
    }
}

/// A text value starting at `i`: a node that holds the text as its string.
pub open spec fn spec_text(d: Seq<char>, i: int) -> Option<(int, ParsedModel)> {
    match scan_text(d, i, Seq::empty(), false) {
        Some((np, t)) => Some((np, with_string(empty_model(), t))),
        None => None,
    }
}

proof fn lemma_bare_scan(d: Seq<char>, pos: int, q: int, j: int)
    requires
        0 <= pos <= q <= j < d.len(),
        d[j] == ',' || d[j] == '}' || d[j] == ']',
        forall|l: int| pos <= l < j ==> d[l] != ',' && d[l] != '}' && d[l] != ']' && d[l] != '"',
    ensures
        scan_text(d, q, d.subrange(pos, q), false) == Some((j, d.subrange(pos, j))),
    decreases j - q,
{
    if q < j {
        assert(d.subrange(pos, q).push(d[q]) =~= d.subrange(pos, q + 1));
        lemma_bare_scan(d, pos, q + 1, j);
    }
}

/// A bare text: it runs up to the first `,`, `}` or `]`, which is not
/// taken; the value is a node that holds the text as its string.
pub proof fn law_bare_text(d: Seq<char>, pos: int, j: int)
    requires
        0 <= pos <= j < d.len(),
        d[j] == ',' || d[j] == '}' || d[j] == ']',
        forall|l: int| pos <= l < j ==> d[l] != ',' && d[l] != '}' && d[l] != ']' && d[l] != '"',
    ensures
        spec_text(d, pos) == Some((j, with_string(empty_model(), d.subrange(pos, j)))),
{
    assert(d.subrange(pos, pos) =~= Seq::<char>::empty());
    lemma_bare_scan(d, pos, pos, j);
}

proof fn lemma_quoted_scan(d: Seq<char>, pos: int, q: int, k: int)
    requires
        0 <= pos < q <= k < d.len(),
        d[k] == '"',
        forall|l: int| pos < l < k ==> d[l] != '"',
    ensures
        scan_text(d, q, d.subrange(pos + 1, q), true) == Some((k + 1, d.subrange(pos + 1, k))),
    decreases k - q,
{
    if q < k {
        assert(d.subrange(pos + 1, q).push(d[q]) =~= d.subrange(pos + 1, q + 1));
        lemma_quoted_scan(d, pos, q + 1, k);
    }
}

/// A quoted text: it runs up to the next quote, whatever it holds in
/// between (commas and brackets too), and the position after that quote
/// is where the value ends.
pub proof fn law_quoted_text(d: Seq<char>, pos: int, k: int)
    requires
        0 <= pos < k < d.len(),
        d[pos] == '"',
        d[k] == '"',
        forall|l: int| pos < l < k ==> d[l] != '"',
    ensures
        spec_text(d, pos) == Some((k + 1, with_string(empty_model(), d.subrange(pos + 1, k)))),
{
    assert(d.subrange(pos + 1, pos + 1) =~= Seq::<char>::empty());
    lemma_quoted_scan(d, pos, pos + 1, k);
}

/// A value starting at `i`: a map after `{`, a list after `[`, else a text.
pub open spec fn spec_value(d: Seq<char>, i: int) -> Option<(int, ParsedModel)>
    decreases d.len() - i, 0int,
{
    if !(0 <= i < d.len()) {
        None
    } else if d[i] == '{' {
        spec_map(d, i + 1, empty_model())
    } else if d[i] == '[' {
        spec_list(d, i + 1, empty_model())
    } else {
        spec_text(d, i)
    }
}

/// The rest of a list from position `i`, `acc` holding the items so far:
/// values separated by `,` up to the closing `]`. The result is the
/// position after the `]` and the list node. (A value never ends before
/// it starts, see `lemma_value_advances`; the check `i <= np` only makes
/// the definition well-founded.)
pub open spec fn spec_list(d: Seq<char>, i: int, acc: ParsedModel) -> Option<(int, ParsedModel)>
    decreases d.len() - i, 1int,
{
    if !(0 <= i < d.len()) {
        None
    } else if d[i] == ']' {
        Some((i + 1, acc))
    } else if d[i] == '}' {
        None
    } else {
        match spec_value(d, i) {
            None => None,
            Some((np, v)) => if !(i <= np < d.len()) {
                None
            } else {
                let next = with_list_item(acc, v);
                if d[np] == ',' {
                    spec_list(d, np + 1, next)
                } else if d[np] == ']' {
                    Some((np + 1, next))
                } else {
                    None
                }
            },
        }
    }
}

/// The rest of a map from position `i`, `acc` holding the entries so far:
/// entries `"key":value` separated by `,` up to the closing `}`. The
/// result is the position after the `}` and the map node. (The check
/// `vpos <= np` never fails, see `lemma_value_advances`.)
pub open spec fn spec_map(d: Seq<char>, i: int, acc: ParsedModel) -> Option<(int, ParsedModel)>
    decreases d.len() - i, 1int,
{
    if !(0 <= i < d.len()) {
        None
    } else if d[i] == '}' {
        Some((i + 1, acc))
    } else if d[i] != '"' {
        None
    } else {
        match quote_from(d, i + 1) {
            None => None,
            Some(q) => {
                proof {
                    lemma_quote_from(d, i + 1);
                }
                let colon = q + 1;
                let vpos = q + 2;
                if vpos >= d.len() || d[colon] != ':' {
                    None
                } else {
                    match spec_value(d, vpos) {
                        None => None,
                        Some((np, v)) => if !(vpos <= np < d.len()) {
                            None
                        } else {
                            let next = with_map_entry(acc, d.subrange(i + 1, q), v);
                            if d[np] == ',' {
                                spec_map(d, np + 1, next)
                            } else if d[np] == '}' {
                                Some((np + 1, next))
                            } else {
                                None
                            }
                        },
                    }
                }
            },
        }
    }
}

proof fn lemma_text_advances(d: Seq<char>, i: int, tmp: Seq<char>, open: bool)
    ensures
        scan_text(d, i, tmp, open) matches Some((np, _)) ==> i <= np <= d.len(),
    decreases d.len() - i,
{
    if 0 <= i < d.len() {
        let c = d[i];
        if open {
            if c != '"' {
                lemma_text_advances(d, i + 1, tmp.push(c), true);
            }
        } else if c == '"' {
            lemma_text_advances(d, i + 1, tmp, true);
        } else if !(c == ',' || c == '}' || c == ']') {
            lemma_text_advances(d, i + 1, tmp.push(c), false);
        }
    }
}

/// A value ends at or after the place where it starts, and within the
/// text; so the definitions' checks `i <= np` and `vpos <= np` never fail.
pub proof fn lemma_value_advances(d: Seq<char>, i: int)
    ensures
        spec_value(d, i) matches Some((np, _)) ==> i <= np <= d.len(),
    decreases d.len() - i, 0int,
{
    if 0 <= i < d.len() {
        if d[i] == '{' {
            lemma_map_advances(d, i + 1, empty_model());
        } else if d[i] == '[' {
            lemma_list_advances(d, i + 1, empty_model());
        } else {
            lemma_text_advances(d, i, Seq::empty(), false);
        }
    }
}

/// A list ends after the place where its rest starts.
pub proof fn lemma_list_advances(d: Seq<char>, i: int, acc: ParsedModel)
    ensures
        spec_list(d, i, acc) matches Some((np, _)) ==> i < np <= d.len(),
    decreases d.len() - i, 1int,
{
    if 0 <= i < d.len() && d[i] != ']' && d[i] != '}' {
        lemma_value_advances(d, i);
        if let Some((np, v)) = spec_value(d, i) {
            if i <= np < d.len() && d[np] == ',' {
                lemma_list_advances(d, np + 1, with_list_item(acc, v));
            }
        }
    }
}

/// A map ends after the place where its rest starts.
pub proof fn lemma_map_advances(d: Seq<char>, i: int, acc: ParsedModel)
    ensures
        spec_map(d, i, acc) matches Some((np, _)) ==> i < np <= d.len(),
    decreases d.len() - i, 1int,
{
    if 0 <= i < d.len() && d[i] == '"' {
        lemma_quote_from(d, i + 1);
        if let Some(q) = quote_from(d, i + 1) {
            let vpos = q + 2;
            if vpos < d.len() && d[q + 1] == ':' {
                lemma_value_advances(d, vpos);
                if let Some((np, v)) = spec_value(d, vpos) {
                    if vpos <= np < d.len() && d[np] == ',' {
                        lemma_map_advances(d, np + 1, with_map_entry(acc, d.subrange(i + 1, q), v));
                    }
                }
            }
        }
    }
}

proof fn lemma_list_shape(d: Seq<char>, i: int, acc: ParsedModel)
    requires
        acc.string is None,
        acc.map is None,
    ensures
        spec_list(d, i, acc) matches Some((j, l)) ==> {
            &&& i < j <= d.len()
            &&& d[j - 1] == ']'
            &&& l.string is None
            &&& l.map is None
            &&& (l.list is None <==> (acc.list is None && d[i] == ']'))
        },
    decreases d.len() - i,
{
    if 0 <= i < d.len() && d[i] != ']' && d[i] != '}' {
        if let Some((np, v)) = spec_value(d, i) {
            if i <= np < d.len() && d[np] == ',' {
                lemma_list_shape(d, np + 1, with_list_item(acc, v));
            }
        }
    }
}

/// The shape of a list: it ends just after its closing `]`, it is a node
/// with neither string nor map, and it has no list exactly when the `]`
/// comes first.
pub proof fn law_list_shape(d: Seq<char>, i: int)
    ensures
        spec_list(d, i, empty_model()) matches Some((j, l)) ==> {
            &&& i < j <= d.len()
            &&& d[j - 1] == ']'
            &&& l.string is None
            &&& l.map is None
            &&& (l.list is None <==> d[i] == ']')
        },
{
    lemma_list_shape(d, i, empty_model());
}

proof fn lemma_map_shape(d: Seq<char>, i: int, acc: ParsedModel)
    requires
        acc.string is None,
        acc.list is None,
    ensures
        spec_map(d, i, acc) matches Some((j, m)) ==> {
            &&& i < j <= d.len()
            &&& d[j - 1] == '}'
            &&& m.string is None
            &&& m.list is None
            &&& (m.map is None <==> (acc.map is None && d[i] == '}'))
        },
    decreases d.len() - i,
{
    if 0 <= i < d.len() && d[i] == '"' {
        lemma_quote_from(d, i + 1);
        if let Some(q) = quote_from(d, i + 1) {
            let vpos = q + 2;
            if vpos < d.len() && d[q + 1] == ':' {
                if let Some((np, v)) = spec_value(d, vpos) {
                    if vpos <= np < d.len() && d[np] == ',' {
                        lemma_map_shape(d, np + 1, with_map_entry(acc, d.subrange(i + 1, q), v));
                    }
                }
            }
        }
    }
}

/// The shape of a map: it ends just after its closing `}`, it is a node
/// with neither string nor list, and it has no map exactly when the `}`
/// comes first.
pub proof fn law_map_shape(d: Seq<char>, i: int)
    ensures
        spec_map(d, i, empty_model()) matches Some((j, m)) ==> {
            &&& i < j <= d.len()
            &&& d[j - 1] == '}'
            &&& m.string is None
            &&& m.list is None
            &&& (m.map is None <==> d[i] == '}')
        },
{
    lemma_map_shape(d, i, empty_model());
}

/// The items of a list: an item that starts with `{` is the map read from
/// just after the `{`, one that starts with `[` is the list read from just
/// after the `[`, and any other is a text; it is followed by `,` and the
/// next item, or by the `]` that closes the list.
pub proof fn law_list_item(d: Seq<char>, i: int, acc: ParsedModel)
    requires
        0 <= i < d.len(),
        d[i] != ']',
        d[i] != '}',
    ensures
        d[i] == '{' ==> match spec_map(d, i + 1, empty_model()) {
            Some((np, m)) => np < d.len() ==> {
                &&& d[np] == ',' ==> spec_list(d, i, acc) == spec_list(d, np + 1, with_list_item(acc, m))
                &&& d[np] == ']' ==> spec_list(d, i, acc) == Some((np + 1, with_list_item(acc, m)))
            },
            None => true,
        },
        d[i] == '[' ==> match spec_list(d, i + 1, empty_model()) {
            Some((np, l)) => np < d.len() ==> {
                &&& d[np] == ',' ==> spec_list(d, i, acc) == spec_list(d, np + 1, with_list_item(acc, l))
                &&& d[np] == ']' ==> spec_list(d, i, acc) == Some((np + 1, with_list_item(acc, l)))
            },
            None => true,
        },
        d[i] != '{' && d[i] != '[' ==> match spec_text(d, i) {
            Some((np, t)) => np < d.len() ==> {
                &&& d[np] == ',' ==> spec_list(d, i, acc) == spec_list(d, np + 1, with_list_item(acc, t))
                &&& d[np] == ']' ==> spec_list(d, i, acc) == Some((np + 1, with_list_item(acc, t)))
            },
            None => true,
        },
{
    lemma_value_advances(d, i);
}

/// The values of a map: a value that starts with `{` is the map read from
/// just after the `{`, one that starts with `[` is the list read from just
/// after the `[`, and any other is a text; the entry maps the quoted key to
/// it, and is followed by `,` and the next entry, or by the `}` that closes
/// the map.
pub proof fn law_map_value(d: Seq<char>, i: int, q: int, acc: ParsedModel)
    requires
        0 <= i < q,
        q + 2 < d.len(),
        d[i] == '"',
        d[q] == '"',
        forall|l: int| i < l < q ==> d[l] != '"',
        d[q + 1] == ':',
    ensures
        d[q + 2] == '{' ==> match spec_map(d, q + 3, empty_model()) {
            Some((np, m)) => np < d.len() ==> {
                &&& d[np] == ',' ==> spec_map(d, i, acc) == spec_map(
                    d,
                    np + 1,
                    with_map_entry(acc, d.subrange(i + 1, q), m),
                )
                &&& d[np] == '}' ==> spec_map(d, i, acc) == Some(
                    (np + 1, with_map_entry(acc, d.subrange(i + 1, q), m)),
                )
            },
            None => true,
        },
        d[q + 2] == '[' ==> match spec_list(d, q + 3, empty_model()) {
            Some((np, l)) => np < d.len() ==> {
                &&& d[np] == ',' ==> spec_map(d, i, acc) == spec_map(
                    d,
                    np + 1,
                    with_map_entry(acc, d.subrange(i + 1, q), l),
                )
                &&& d[np] == '}' ==> spec_map(d, i, acc) == Some(
                    (np + 1, with_map_entry(acc, d.subrange(i + 1, q), l)),
                )
            },
            None => true,
        },
        d[q + 2] != '{' && d[q + 2] != '[' ==> match spec_text(d, q + 2) {
            Some((np, t)) => np < d.len() ==> {
                &&& d[np] == ',' ==> spec_map(d, i, acc) == spec_map(
                    d,
                    np + 1,
                    with_map_entry(acc, d.subrange(i + 1, q), t),
                )
                &&& d[np] == '}' ==> spec_map(d, i, acc) == Some(
                    (np + 1, with_map_entry(acc, d.subrange(i + 1, q), t)),
                )
            },
            None => true,
        },
{
    lemma_quote_from(d, i + 1);
    lemma_quote_from_first(d, i + 1, q);
    lemma_value_advances(d, q + 2);
}

proof fn lemma_quote_from_first(d: Seq<char>, j: int, q: int)
    requires
        0 <= j <= q < d.len(),
        d[q] == '"',
        forall|l: int| j <= l < q ==> d[l] != '"',
    ensures
        quote_from(d, j) == Some(q),
    decreases q - j,
{
    if j < q {
        lemma_quote_from_first(d, j + 1, q);
    }
}

/// What parsing `s` gives: after dropping the spaces outside quotes, a
/// list when the text starts with `[`, a map when it starts with `{`;
/// `None` for the texts that are refused. What follows the outer list or
/// map is ignored.
pub open spec fn spec_json(s: Seq<char>) -> Option<ParsedModel> {
    let d = strip_spaces(s);
    if d.len() == 0 {
        None
    } else if d[0] == '[' {
        match spec_list(d, 1, empty_model()) {
            Some((_, m)) => Some(m),
            None => None,
        }
    } else if d[0] == '{' {
        match spec_map(d, 1, empty_model()) {
            Some((_, m)) => Some(m),
            None => None,
        }
    } else {
        None
    }
}

/// A bare item: not empty, not starting like a list or a map, and free of
/// spaces, quotes, commas and closing brackets.
pub open spec fn is_bare_item(w: Seq<char>) -> bool {
    &&& w.len() > 0
    &&& w[0] != '[' && w[0] != '{'
    &&& forall|k: int|
        0 <= k < w.len() ==> !is_json_space(#[trigger] w[k]) && w[k] != '"' && w[k] != ','
            && w[k] != ']' && w[k] != '}'
}

/// The items of a list written out, each followed by `,` but the last,
/// which is followed by `]`.
pub open spec fn list_body(ws: Seq<Seq<char>>) -> Seq<char>
    decreases ws.len(),
{
    if ws.len() <= 1 {
        ws[0] + seq![']']
    } else {
        ws[0] + seq![','] + list_body(ws.drop_first())
    }
}

/// The text nodes of some items.
pub open spec fn text_nodes(ws: Seq<Seq<char>>) -> Seq<ParsedModel> {
    ws.map_values(|w: Seq<char>| with_string(empty_model(), w))
}

/// `acc` with the nodes `vs` appended to its list, one after the other.
pub open spec fn with_list_items(acc: ParsedModel, vs: Seq<ParsedModel>) -> ParsedModel
    decreases vs.len(),
{
    if vs.len() == 0 {
        acc
    } else {
        with_list_items(with_list_item(acc, vs[0]), vs.drop_first())
    }
}

proof fn lemma_with_list_items(acc: ParsedModel, vs: Seq<ParsedModel>)
    ensures
        with_list_items(acc, vs).string == acc.string,
        with_list_items(acc, vs).map == acc.map,
        vs.len() > 0 ==> with_list_items(acc, vs).list == Some(
            (match acc.list {
                Some(l) => l,
                None => Seq::empty(),
            }) + vs,
        ),
    decreases vs.len(),
{
    if vs.len() > 0 {
        let next = with_list_item(acc, vs[0]);
        lemma_with_list_items(next, vs.drop_first());
        let l = match acc.list {
            Some(l) => l,
            None => Seq::empty(),
        };
        if vs.len() > 1 {
            assert(l.push(vs[0]) + vs.drop_first() =~= l + vs);
        } else {
            assert(l.push(vs[0]) =~= l + vs);
        }
    }
}

proof fn lemma_scan_bare(d: Seq<char>, i: int, w: Seq<char>, k: int, tmp: Seq<char>)
    requires
        is_bare_item(w),
        0 <= i,
        0 <= k <= w.len(),
        i + w.len() < d.len(),
        d.subrange(i, i + w.len()) == w,
        d[i + w.len()] == ',' || d[i + w.len()] == ']',
        tmp == w.take(k),
    ensures
        scan_text(d, i + k, tmp, false) == Some((i + w.len(), w)),
    decreases w.len() - k,
{
    if k < w.len() {
        assert(d[i + k] == w[k]);
        assert(tmp.push(w[k]) =~= w.take(k + 1));
        lemma_scan_bare(d, i, w, k + 1, tmp.push(w[k]));
    } else {
        assert(tmp =~= w);
    }
}

proof fn lemma_list_of_bare_items(pre: Seq<char>, ws: Seq<Seq<char>>, acc: ParsedModel)
    requires
        ws.len() >= 1,
        forall|j: int| 0 <= j < ws.len() ==> is_bare_item(#[trigger] ws[j]),
    ensures
        spec_list(pre + list_body(ws), pre.len() as int, acc) == Some(
            ((pre + list_body(ws)).len() as int, with_list_items(acc, text_nodes(ws))),
        ),
    decreases ws.len(),
{
    let d = pre + list_body(ws);
    let w = ws[0];
    let i = pre.len() as int;
    assert(is_bare_item(w));
    let sep = if ws.len() <= 1 { ']' } else { ',' };
    assert(list_body(ws) == w + seq![sep] + (if ws.len() <= 1 {
        Seq::empty()
    } else {
        list_body(ws.drop_first())
    })) by {
        if ws.len() <= 1 {
            assert(w + seq![']'] =~= w + seq![']'] + Seq::<char>::empty());
        }
    }
    assert(d.subrange(i, i + w.len()) =~= w);
    assert(d[i + w.len()] == sep);
    assert(w[0] == d[i]);
    assert(Seq::<char>::empty() =~= w.take(0));
    lemma_scan_bare(d, i, w, 0, Seq::empty());
    let v = with_string(empty_model(), w);
    assert(spec_value(d, i) == Some((i + w.len(), v)));
    let next = with_list_item(acc, v);
    assert(text_nodes(ws)[0] == v);
    assert(d[i] != ']' && d[i] != '}');
    assert(with_list_items(acc, text_nodes(ws)) == with_list_items(next, text_nodes(ws).drop_first()));
    if ws.len() <= 1 {
        assert(text_nodes(ws).drop_first() =~= Seq::<ParsedModel>::empty());
        assert(with_list_items(next, Seq::<ParsedModel>::empty()) == next);
        assert(d.len() == i + w.len() + 1);
    } else {
        let pre2 = pre + w + seq![','];
        let rest = ws.drop_first();
        assert(d =~= pre2 + list_body(rest));
        assert forall|j: int| 0 <= j < rest.len() implies is_bare_item(#[trigger] rest[j]) by {
            assert(rest[j] == ws[j + 1]);
        }
        lemma_list_of_bare_items(pre2, rest, next);
        assert(text_nodes(ws).drop_first() =~= text_nodes(rest));
    }
}

proof fn lemma_list_body_plain(ws: Seq<Seq<char>>)
    requires
        ws.len() >= 1,
        forall|j: int| 0 <= j < ws.len() ==> is_bare_item(#[trigger] ws[j]),
    ensures
        forall|k: int|
            0 <= k < list_body(ws).len() ==> !is_json_space(#[trigger] list_body(ws)[k])
                && list_body(ws)[k] != '"',
    decreases ws.len(),
{
    let w = ws[0];
    assert(is_bare_item(w));
    if ws.len() > 1 {
        let rest = ws.drop_first();
        assert forall|j: int| 0 <= j < rest.len() implies is_bare_item(#[trigger] rest[j]) by {
            assert(rest[j] == ws[j + 1]);
        }
        lemma_list_body_plain(rest);
        let b = list_body(ws);
        assert forall|k: int| 0 <= k < b.len() implies !is_json_space(#[trigger] b[k]) && b[k] != '"' by {
            if k < w.len() {
                assert(b[k] == w[k]);
            } else if k > w.len() {
                assert(b[k] == list_body(rest)[k - w.len() - 1]);
            }
        }
    } else {
        let b = list_body(ws);
        assert forall|k: int| 0 <= k < b.len() implies !is_json_space(#[trigger] b[k]) && b[k] != '"' by {
            if k < w.len() {
                assert(b[k] == w[k]);
            }
        }
    }
}

proof fn lemma_strip_plain(s: Seq<char>)
    requires
        forall|k: int| 0 <= k < s.len() ==> !is_json_space(#[trigger] s[k]) && s[k] != '"',
    ensures
        strip_state(s) == (s, false),
    decreases s.len(),
{
    if s.len() > 0 {
        lemma_strip_plain(s.drop_last());
        assert(s.drop_last().push(s.last()) =~= s);
    }
}

/// A list of bare items written with commas parses as a list node that
/// holds one text node per item, in order.
pub proof fn law_list_of_bare_items(ws: Seq<Seq<char>>)
    requires
        ws.len() >= 1,
        forall|j: int| 0 <= j < ws.len() ==> is_bare_item(#[trigger] ws[j]),
    ensures
        spec_json(seq!['['] + list_body(ws)) == Some(
            ParsedModel { string: None, map: None, list: Some(text_nodes(ws)) },
        ),
{
    let s = seq!['['] + list_body(ws);
    lemma_list_body_plain(ws);
    assert forall|k: int| 0 <= k < s.len() implies !is_json_space(#[trigger] s[k]) && s[k] != '"' by {
        if k > 0 {
            assert(s[k] == list_body(ws)[k - 1]);
        }
    }
    lemma_strip_plain(s);
    lemma_list_of_bare_items(seq!['['], ws, empty_model());
    lemma_with_list_items(empty_model(), text_nodes(ws));
    assert(Seq::<ParsedModel>::empty() + text_nodes(ws) =~= text_nodes(ws));
}

/// Whether an executable result agrees with a specified one.
pub open spec fn agrees(r: Option<(usize, ParsedString)>, s: Option<(int, ParsedModel)>) -> bool {
    match (r, s) {
        (Some((p, v)), Some((q, m))) => p == q && v@ == m,
        (None, None) => true,
        _ => false,
    }
}

/// Reads a text value starting at `pos`.
fn parse_string(pos: usize, raw_data: &Vec<char>) -> (r: Option<(usize, ParsedString)>)
    ensures
        agrees(r, spec_text(raw_data@, pos as int)),
        r matches Some((np, _)) ==> pos <= np <= raw_data@.len(),
{
    let n = raw_data.len();
    let mut tmp = String::new();
    let mut open_string = false;
    let mut i = pos;
    while i < n
        invariant
            n == raw_data@.len(),
            pos <= i,
            scan_text(raw_data@, pos as int, Seq::empty(), false) == scan_text(
                raw_data@,
                i as int,
                tmp@,
                open_string,
            ),
        decreases n - i,
    {
        let c = raw_data[i];
        if open_string {
            if c == '"' {
                let mut parsed_string = ParsedString::new();
                parsed_string.set_string(tmp);
                return Some((i + 1, parsed_string));
            }
            push_char(&mut tmp, c);
        } else if c == '"' {
            if !tmp.as_str().is_empty() {
                return None;
            }
            open_string = true;
        } else if c == ',' || c == '}' || c == ']' {
            let mut parsed_string = ParsedString::new();
            parsed_string.set_string(tmp);
            return Some((i, parsed_string));
        } else {
            push_char(&mut tmp, c);
        }
        i = i + 1;
    }
    None
}

/// Reads a value starting at `pos`: a map, a list or a text.
fn parse_value(pos: usize, raw_data: &Vec<char>) -> (r: Option<(usize, ParsedString)>)
    ensures
        agrees(r, spec_value(raw_data@, pos as int)),
        r matches Some((np, _)) ==> pos <= np <= raw_data@.len(),
    decreases raw_data@.len() - pos, 0int,
{
    if pos >= raw_data.len() {
        return None;
    }
    if raw_data[pos] == '{' {
        parse_map(pos + 1, raw_data)
    } else if raw_data[pos] == '[' {
        parse_list(pos + 1, raw_data)
    } else {
        parse_string(pos, raw_data)
    }
}

/// Reads the rest of a list, from `pos` up to and including its `]`.
fn parse_list(pos: usize, raw_data: &Vec<char>) -> (r: Option<(usize, ParsedString)>)
    ensures
        agrees(r, spec_list(raw_data@, pos as int, empty_model())),
        r matches Some((np, _)) ==> pos < np <= raw_data@.len(),
    decreases raw_data@.len() - pos, 1int,
{
    let n = raw_data.len();
    let mut parsed_string = ParsedString::new();
    let mut i = pos;
    loop
        invariant
            n == raw_data@.len(),
            pos <= i,
            spec_list(raw_data@, pos as int, empty_model()) == spec_list(
                raw_data@,
                i as int,
                parsed_string@,
            ),
        decreases n - i,
    {
        if i >= n {
            return None;
        }
        let c = raw_data[i];
        if c == ']' {
            return Some((i + 1, parsed_string));
        }
        if c == '}' {
            return None;
        }
        match parse_value(i, raw_data) {
            None => {
                return None;
            },
            Some((npos, parsed_string_new)) => {
                if npos >= n {
                    return None;
                }
                parsed_string.add_to_list(parsed_string_new);
                if raw_data[npos] == ',' {
                    i = npos + 1;
                } else if raw_data[npos] == ']' {
                    return Some((npos + 1, parsed_string));
                } else {
                    return None;
                }
            },
        }
    }
}

/// Reads the rest of a map, from `pos` up to and including its `}`.
fn parse_map(pos: usize, raw_data: &Vec<char>) -> (r: Option<(usize, ParsedString)>)
    ensures
        agrees(r, spec_map(raw_data@, pos as int, empty_model())),
        r matches Some((np, _)) ==> pos < np <= raw_data@.len(),
    decreases raw_data@.len() - pos, 1int,
{
    let n = raw_data.len();
    let mut parsed_string = ParsedString::new();
    let mut i = pos;
    loop
        invariant
            n == raw_data@.len(),
            pos <= i,
            spec_map(raw_data@, pos as int, empty_model()) == spec_map(
                raw_data@,
                i as int,
                parsed_string@,
            ),
        decreases n - i,
    {
        if i >= n {
            return None;
        }
        let c = raw_data[i];
        if c == '}' {
            return Some((i + 1, parsed_string));
        }
        if c != '"' {
            return None;
        }
        // the key runs up to the next quote
        let start = i + 1;
        let mut key = String::new();
        let mut j = start;
        while j < n && raw_data[j] != '"'
            invariant
                n == raw_data@.len(),
                start <= j <= n,
                key@ == raw_data@.subrange(start as int, j as int),
                quote_from(raw_data@, start as int) == quote_from(raw_data@, j as int),
            decreases n - j,
        {
            push_char(&mut key, raw_data[j]);
            assert(key@ =~= raw_data@.subrange(start as int, j + 1));
            j = j + 1;
        }
        if j >= n {
            return None;
        }
        // `j` holds the closing quote
        if n - j <= 2 || raw_data[j + 1] != ':' {
            return None;
        }
        let vpos = j + 2;
        match parse_value(vpos, raw_data) {
            None => {
                return None;
            },
            Some((npos, parsed_string_new)) => {
                if npos >= n {
                    return None;
                }
                parsed_string.add_to_hashmap(key, parsed_string_new);
                if raw_data[npos] == ',' {
                    i = npos + 1;
                } else if raw_data[npos] == '}' {
                    return Some((npos + 1, parsed_string));
                } else {
                    return None;
                }
            },
        }
    }
}

/// The characters of `s` without its spaces outside quotes.
fn strip_chars(s: &str) -> (d: Vec<char>)
    ensures
        d@ == strip_spaces(s@),
{
    let mut filtered_data: Vec<char> = Vec::new();
    let mut open_string = false;
    for c in it: s.chars()
        invariant
            it.seq() == s@,
            (filtered_data@, open_string) == strip_state(s@.take(it.index() as int)),
    {
        proof {
            let k = it.index() as int;
            assert(s@.take(k + 1).drop_last() =~= s@.take(k));
            assert(s@.take(k + 1).last() == c);
        }
        if c == '"' {
            open_string = !open_string;
        }
        if open_string || !(c == '\n' || c == '\r' || c == '\t' || c == ' ') {
            filtered_data.push(c);
        }
    }
    proof {
        assert(s@.take(s@.len() as int) =~= s@);
    }
    filtered_data
}

/// What parsing gives as an executable value, for the texts it accepts.
pub open spec fn json_result_agrees(r: Option<ParsedString>, s: Seq<char>) -> bool {
    match (r, spec_json(s)) {
        (Some(v), Some(m)) => v@ == m,
        (None, None) => true,
        _ => false,
    }
}

/// Parses `s`, or gives `None` for a text that is refused: one that has
/// nothing but spaces, that does not start with `[` or `{`, or whose
/// brackets, quotes, colons or commas do not fit together.
pub fn try_parse(s: &String) -> (r: Option<ParsedString>)
    ensures
        json_result_agrees(r, s@),
{
    let filtered_data = strip_chars(s.as_str());
    if filtered_data.len() == 0 {
        return None;
    }
    if filtered_data[0] == '[' {
        match parse_list(1, &filtered_data) {
            Some((_, ps)) => Some(ps),
            None => None,
        }
    } else if filtered_data[0] == '{' {
        match parse_map(1, &filtered_data) {
            Some((_, ps)) => Some(ps),
            None => None,
        }
    } else {
        None
    }
}

/// Parses `s`, which must be a text that is accepted.
pub fn parse(s: &String) -> (r: ParsedString)
    requires
        spec_json(s@) is Some,
    ensures
        r@ == spec_json(s@).unwrap(),
{
    match try_parse(s) {
        Some(ps) => ps,
        None => unreached(),
    }
}

} // verus!
