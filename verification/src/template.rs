//! Splitting a translation into literal text and `{{name}}` substitution
//! slots.
//!
//! The template is scanned left to right; at each point the earliest
//! occurrence of any placeholder is taken (the first placeholder in the list
//! when several start at the same place), the text before it becomes a
//! literal piece and the placeholder a slot.

use vstd::prelude::*;
use vstd::utf8::encode_utf8;
use crate::text::{chars_of, string_of_range, strings_view};

verus! {

/// One piece of a split template.
#[derive(Debug, PartialEq, Eq)]
pub enum Part {
    /// Text copied as is.
    Text(String),
    /// The value of the replacement with this index.
    Value(usize),
}

/// A piece of a split template, as values.
pub enum PartView {
    Text(Seq<char>),
    Value(nat),
}

impl View for Part {
    type V = PartView;

    open spec fn view(&self) -> PartView {
        match self {
            Part::Text(s) => PartView::Text(s@),
            Part::Value(i) => PartView::Value(*i as nat),
        }
    }
}

/// The pieces of a vector, as values.
pub open spec fn parts_view(parts: Seq<Part>) -> Seq<PartView> {
    parts.map_values(|p: Part| p@)
}

/// A template split into pieces, with the number of UTF-8 bytes its literal
/// pieces hold together.
#[derive(Debug, PartialEq, Eq)]
pub struct TemplatePlan {
    pub parts: Vec<Part>,
    pub literal_len: usize,
}

/// `p` occurs in `t` starting at position `i`.
pub open spec fn occurs_at(t: Seq<char>, i: int, p: Seq<char>) -> bool {
    0 <= i && i + p.len() <= t.len() && t.subrange(i, i + p.len()) == p
}

/// The lowest index `i >= j` of a placeholder that occurs at `s`.
pub open spec fn match_index_from(t: Seq<char>, s: int, ph: Seq<Seq<char>>, j: int) -> Option<int>
    decreases ph.len() - j,
{
    if j < 0 || j >= ph.len() {
        None
    } else if occurs_at(t, s, ph[j]) {
        Some(j)
    } else {
        match_index_from(t, s, ph, j + 1)
    }
}

/// The earliest position at or after `pos` where some placeholder occurs,
/// with the lowest index of the placeholders that occur there.
pub open spec fn scan(t: Seq<char>, pos: int, ph: Seq<Seq<char>>) -> Option<(int, int)>
    decreases t.len() + 1 - pos,
{
    if pos < 0 || pos > t.len() {
        None
    } else {
        match match_index_from(t, pos, ph, 0) {
            Some(i) => Some((pos, i)),
            None => scan(t, pos + 1, ph),
        }
    }
}

/// `(start, i)` is the first match from `pos` on.
pub open spec fn is_first_match(t: Seq<char>, pos: int, ph: Seq<Seq<char>>, start: int, i: int) -> bool {
    &&& pos <= start
    &&& 0 <= i < ph.len()
    &&& occurs_at(t, start, ph[i])
    &&& forall|q: int, j: int| pos <= q < start && 0 <= j < ph.len() ==> !(#[trigger] occurs_at(t, q, ph[j]))
    &&& forall|j: int| 0 <= j < i ==> !occurs_at(t, start, #[trigger] ph[j])
}

/// No placeholder occurs at or after `pos`.
pub open spec fn no_match_from(t: Seq<char>, pos: int, ph: Seq<Seq<char>>) -> bool {
    forall|q: int, j: int| pos <= q && 0 <= j < ph.len() ==> !(#[trigger] occurs_at(t, q, ph[j]))
}

proof fn lemma_match_index_from(t: Seq<char>, s: int, ph: Seq<Seq<char>>, j: int)
    requires
        0 <= j <= ph.len(),
    ensures
        match match_index_from(t, s, ph, j) {
            Some(i) => j <= i < ph.len() && occurs_at(t, s, ph[i])
                && forall|k: int| j <= k < i ==> !occurs_at(t, s, #[trigger] ph[k]),
            None => forall|k: int| j <= k < ph.len() ==> !occurs_at(t, s, #[trigger] ph[k]),
        },
    decreases ph.len() - j,
{
    if j < ph.len() && !occurs_at(t, s, ph[j]) {
        lemma_match_index_from(t, s, ph, j + 1);
    }
}

/// What `scan` finds is the first match, and when it finds nothing no
/// placeholder occurs.
pub proof fn lemma_scan(t: Seq<char>, pos: int, ph: Seq<Seq<char>>)
    requires
        0 <= pos <= t.len(),
    ensures
        match scan(t, pos, ph) {
            Some((s, i)) => is_first_match(t, pos, ph, s, i),
            None => no_match_from(t, pos, ph),
        },
    decreases t.len() + 1 - pos,
{
    lemma_match_index_from(t, pos, ph, 0);
    match match_index_from(t, pos, ph, 0) {
        Some(i) => {},
        None => {
            if pos < t.len() {
                lemma_scan(t, pos + 1, ph);
            }
            match scan(t, pos + 1, ph) {
                Some((s, i)) => {
                    assert forall|q: int, j: int| pos <= q < s && 0 <= j < ph.len() implies !(#[trigger] occurs_at(t, q, ph[j])) by {
                        if q == pos {
                        }
                    }
                },
                None => {
                    assert forall|q: int, j: int| pos <= q && 0 <= j < ph.len() implies !(#[trigger] occurs_at(t, q, ph[j])) by {
                        if q == pos {
                        } else if q > t.len() {
                        }
                    }
                },
            }
        },
    }
}

proof fn lemma_first_match_is_scan(t: Seq<char>, pos: int, ph: Seq<Seq<char>>, s: int, i: int)
    requires
        0 <= pos <= t.len(),
        is_first_match(t, pos, ph, s, i),
    ensures
        scan(t, pos, ph) == Some((s, i)),
    decreases s - pos,
{
    lemma_match_index_from(t, pos, ph, 0);
    if pos < s {
        assert(match_index_from(t, pos, ph, 0) is None) by {
            if let Some(k) = match_index_from(t, pos, ph, 0) {
                assert(!occurs_at(t, pos, ph[k]));
            }
        }
        lemma_first_match_is_scan(t, pos + 1, ph, s, i);
    } else {
        match match_index_from(t, pos, ph, 0) {
            Some(k) => {
                if k < i {
                    assert(!occurs_at(t, s, ph[k]));
                } else if k > i {
                    assert(!occurs_at(t, s, ph[i]));
                }
            },
            None => {
                assert(!occurs_at(t, s, ph[i]));
            },
        }
    }
}

proof fn lemma_no_match_is_scan(t: Seq<char>, pos: int, ph: Seq<Seq<char>>)
    requires
        0 <= pos <= t.len(),
        no_match_from(t, pos, ph),
    ensures
        scan(t, pos, ph) is None,
    decreases t.len() + 1 - pos,
{
    lemma_match_index_from(t, pos, ph, 0);
    if let Some(k) = match_index_from(t, pos, ph, 0) {
        assert(!occurs_at(t, pos, ph[k]));
    }
    if pos < t.len() {
        lemma_no_match_is_scan(t, pos + 1, ph);
    }
}

/// The pieces of `t[pos..]`.
pub open spec fn plan(t: Seq<char>, pos: int, ph: Seq<Seq<char>>) -> Seq<PartView>
    decreases t.len() - pos,
{
    if pos < 0 || pos >= t.len() {
        Seq::empty()
    } else {
        match scan(t, pos, ph) {
            None => seq![PartView::Text(t.subrange(pos, t.len() as int))],
            Some((start, i)) => {
                let head: Seq<PartView> = if start > pos {
                    seq![PartView::Text(t.subrange(pos, start))]
                } else {
                    Seq::empty()
                };
                let next = start + ph[i].len();
                proof {
                    lemma_scan(t, pos, ph);
                }
                if next <= pos {
                    head.push(PartView::Value(i as nat))
                } else {
                    head.push(PartView::Value(i as nat)) + plan(t, next, ph)
                }
            },
        }
    }
}

/// Every placeholder has at least one character.
pub open spec fn placeholders_nonempty(ph: Seq<Seq<char>>) -> bool {
    forall|j: int| 0 <= j < ph.len() ==> (#[trigger] ph[j]).len() > 0
}

/// The UTF-8 bytes that the literal pieces hold together.
pub open spec fn text_bytes(parts: Seq<PartView>) -> nat
    decreases parts.len(),
{
    if parts.len() == 0 {
        0
    } else {
        let rest = text_bytes(parts.drop_last());
        match parts.last() {
            PartView::Text(s) => rest + encode_utf8(s).len(),
            PartView::Value(_) => rest,
        }
    }
}

/// UTF-8 encoding distributes over concatenation.
pub proof fn lemma_encode_utf8_append(a: Seq<char>, b: Seq<char>)
    ensures
        encode_utf8(a + b) == encode_utf8(a) + encode_utf8(b),
    decreases a.len(),
{
    if a.len() > 0 {
        assert((a + b).drop_first() == a.drop_first() + b);
        lemma_encode_utf8_append(a.drop_first(), b);
        assert(encode_utf8(a + b) == vstd::utf8::encode_scalar(a[0] as u32) + encode_utf8(a.drop_first() + b));
    } else {
        assert(a + b == b);
        assert(encode_utf8(a) == Seq::<u8>::empty());
    }
}

/// The first position at or after `pos` where `needle` occurs in `hay`.
pub fn find_from(hay: &Vec<char>, pos: usize, needle: &Vec<char>) -> (res: Option<usize>)
    requires
        pos <= hay.len(),
    ensures
        match res {
            Some(s) => pos <= s && occurs_at(hay@, s as int, needle@)
                && forall|q: int| pos <= q < s ==> !occurs_at(hay@, q, needle@),
            None => forall|q: int| pos <= q ==> !occurs_at(hay@, q, needle@),
        },
{
    if needle.len() > hay.len() {
        return None;
    }
    let last = hay.len() - needle.len();
    let mut s = pos;
    while s <= last
        invariant
            pos <= s,
            last == hay.len() - needle.len(),
            needle.len() <= hay.len(),
            forall|q: int| pos <= q < s ==> !occurs_at(hay@, q, needle@),
        decreases last + 1 - s,
    {
        let mut k: usize = 0;
        let mut same = true;
        while k < needle.len()
            invariant
                s <= last,
                last == hay.len() - needle.len(),
                k <= needle.len(),
                same == forall|m: int| 0 <= m < k ==> hay@[s + m] == needle@[m],
            decreases needle.len() - k,
        {
            if hay[s + k] != needle[k] {
                same = false;
            }
            k = k + 1;
        }
        if same {
            assert(hay@.subrange(s as int, s + needle.len()) =~= needle@);
            return Some(s);
        }
        assert(!occurs_at(hay@, s as int, needle@)) by {
            if occurs_at(hay@, s as int, needle@) {
                assert forall|m: int| 0 <= m < needle.len() implies hay@[s + m] == needle@[m] by {
                    assert(hay@.subrange(s as int, s + needle.len())[m] == hay@[s + m]);
                }
            }
        }
        s = s + 1;
    }
    None
}

/// Splits `template` into literal text and slots for `placeholders`: the
/// pieces are `plan(template, 0, placeholders)`, and `literal_len` counts the
/// UTF-8 bytes of the literal pieces.
pub fn plan_template(template: &str, placeholders: &Vec<String>) -> (res: TemplatePlan)
    requires
        placeholders_nonempty(strings_view(placeholders@)),
    ensures
        parts_view(res.parts@) == plan(template@, 0, strings_view(placeholders@)),
        res.literal_len == text_bytes(parts_view(res.parts@)),
{
    let ghost phs = strings_view(placeholders@);
    let t = chars_of(template);
    let total = template.as_bytes().len();
    assert(total == encode_utf8(t@).len());
    let mut ph: Vec<Vec<char>> = Vec::new();
    let mut j: usize = 0;
    while j < placeholders.len()
        invariant
            j <= placeholders.len(),
            phs == strings_view(placeholders@),
            ph@.len() == j,
            forall|k: int| 0 <= k < j ==> (#[trigger] ph@[k])@ == phs[k],
        decreases placeholders.len() - j,
    {
        ph.push(chars_of(placeholders[j].as_str()));
        j = j + 1;
    }
    let mut parts: Vec<Part> = Vec::new();
    let mut literal_len: usize = 0;
    let mut pos: usize = 0;
    proof {
        assert(t@.subrange(0, 0) =~= Seq::<char>::empty());
        assert(parts_view(parts@) =~= Seq::<PartView>::empty());
        assert(plan(t@, 0, phs) == parts_view(parts@) + plan(t@, 0, phs));
    }
    while pos < t.len()
        invariant
            phs == strings_view(placeholders@),
            placeholders_nonempty(phs),
            ph@.len() == phs.len(),
            forall|k: int| 0 <= k < ph@.len() ==> (#[trigger] ph@[k])@ == phs[k],
            t@ == template@,
            total == encode_utf8(t@).len(),
            pos <= t.len(),
            plan(t@, 0, phs) == parts_view(parts@) + plan(t@, pos as int, phs),
            literal_len == text_bytes(parts_view(parts@)),
            literal_len <= encode_utf8(t@.subrange(0, pos as int)).len(),
        decreases t.len() - pos,
    {
        let mut next: Option<(usize, usize)> = None;
        let mut j: usize = 0;
        while j < ph.len()
            invariant
                j <= ph.len(),
                pos < t.len(),
                ph@.len() == phs.len(),
                forall|k: int| 0 <= k < ph@.len() ==> (#[trigger] ph@[k])@ == phs[k],
                match next {
                    None => forall|q: int, jj: int| pos <= q && 0 <= jj < j ==> !(#[trigger] occurs_at(t@, q, phs[jj])),
                    Some((s, i)) => pos <= s && i < j && occurs_at(t@, s as int, phs[i as int])
                        && (forall|q: int, jj: int| pos <= q < s && 0 <= jj < j ==> !(#[trigger] occurs_at(t@, q, phs[jj])))
                        && (forall|jj: int| 0 <= jj < i ==> !(#[trigger] occurs_at(t@, s as int, phs[jj]))),
                },
            decreases ph.len() - j,
        {
            let found = find_from(&t, pos, &ph[j]);
            proof {
                assert(ph@[j as int]@ == phs[j as int]);
            }
            match found {
                Some(st) => {
                    let better = match next {
                        None => true,
                        Some((s, _)) => st < s,
                    };
                    if better {
                        next = Some((st, j));
                    }
                },
                None => {},
            }
            j = j + 1;
        }
        match next {
            None => {
                proof {
                    lemma_no_match_is_scan(t@, pos as int, phs);
                }
                let text = string_of_range(&t, pos, t.len());
                let n = text.as_str().as_bytes().len();
                proof {
                    lemma_encode_utf8_append(t@.subrange(0, pos as int), t@.subrange(pos as int, t.len() as int));
                    assert(t@.subrange(0, pos as int) + t@.subrange(pos as int, t.len() as int) =~= t@);
                }
                let ghost old_parts = parts_view(parts@);
                literal_len = literal_len + n;
                parts.push(Part::Text(text));
                proof {
                    assert(parts_view(parts@) =~= old_parts.push(PartView::Text(t@.subrange(pos as int, t.len() as int))));
                    assert(parts_view(parts@).drop_last() =~= old_parts);
                    assert(plan(t@, pos as int, phs) == seq![PartView::Text(t@.subrange(pos as int, t.len() as int))]);
                    assert(plan(t@, t.len() as int, phs) =~= Seq::<PartView>::empty());
                    assert(old_parts + plan(t@, pos as int, phs) =~= parts_view(parts@) + plan(t@, t.len() as int, phs));
                    assert(t@.subrange(0, t.len() as int) =~= t@);
                }
                pos = t.len();
            },
            Some((start, i)) => {
                proof {
                    lemma_first_match_is_scan(t@, pos as int, phs, start as int, i as int);
                    assert(ph@[i as int]@ == phs[i as int]);
                }
                let ghost old_parts = parts_view(parts@);
                let ghost head: Seq<PartView> = if start > pos {
                    seq![PartView::Text(t@.subrange(pos as int, start as int))]
                } else {
                    Seq::empty()
                };
                if start > pos {
                    let text = string_of_range(&t, pos, start);
                    let n = text.as_str().as_bytes().len();
                    proof {
                        lemma_encode_utf8_append(t@.subrange(0, pos as int), t@.subrange(pos as int, start as int));
                        assert(t@.subrange(0, pos as int) + t@.subrange(pos as int, start as int) =~= t@.subrange(0, start as int));
                        lemma_encode_utf8_append(t@.subrange(0, start as int), t@.subrange(start as int, t.len() as int));
                        assert(t@.subrange(0, start as int) + t@.subrange(start as int, t.len() as int) =~= t@);
                    }
                    literal_len = literal_len + n;
                    parts.push(Part::Text(text));
                    proof {
                        assert(parts_view(parts@) =~= old_parts + head);
                    }
                } else {
                    proof {
                        assert(parts_view(parts@) =~= old_parts + head);
                    }
                }
                let ghost mid_parts = parts_view(parts@);
                parts.push(Part::Value(i));
                let next_pos = start + ph[i].len();
                proof {
                    assert(parts_view(parts@) =~= mid_parts.push(PartView::Value(i as nat)));
                    assert(text_bytes(parts_view(parts@)) == text_bytes(mid_parts)) by {
                        assert(parts_view(parts@).drop_last() =~= mid_parts);
                    }
                    if start > pos {
                        assert(mid_parts.drop_last() =~= old_parts);
                    }
                    assert(plan(t@, pos as int, phs) == head.push(PartView::Value(i as nat)) + plan(t@, next_pos as int, phs));
                    assert(old_parts + plan(t@, pos as int, phs) =~= parts_view(parts@) + plan(t@, next_pos as int, phs));
                    lemma_encode_utf8_append(t@.subrange(0, start as int), t@.subrange(start as int, next_pos as int));
                    assert(t@.subrange(0, start as int) + t@.subrange(start as int, next_pos as int) =~= t@.subrange(0, next_pos as int));
                    lemma_encode_utf8_append(t@.subrange(0, pos as int), t@.subrange(pos as int, start as int));
                    assert(t@.subrange(0, pos as int) + t@.subrange(pos as int, start as int) =~= t@.subrange(0, start as int));
                }
                pos = next_pos;
            },
        }
    }
    TemplatePlan { parts, literal_len }
}

/// The text of a piece when each slot is filled with `values[i]`.
pub open spec fn piece_text(p: PartView, values: Seq<Seq<char>>) -> Seq<char> {
    match p {
        PartView::Text(s) => s,
        PartView::Value(i) => values[i as int],
    }
}

/// The pieces joined, each slot filled with `values[i]`.
pub open spec fn render(parts: Seq<PartView>, values: Seq<Seq<char>>) -> Seq<char>
    decreases parts.len(),
{
    if parts.len() == 0 {
        Seq::empty()
    } else {
        piece_text(parts[0], values) + render(parts.drop_first(), values)
    }
}

/// A literal piece holds no placeholder, and a slot names a placeholder.
pub open spec fn piece_ok(p: PartView, ph: Seq<Seq<char>>) -> bool {
    match p {
        PartView::Text(s) => forall|q: int, j: int| 0 <= j < ph.len() ==> !(#[trigger] occurs_at(s, q, ph[j])),
        PartView::Value(i) => i < ph.len(),
    }
}

proof fn lemma_render_append(a: Seq<PartView>, b: Seq<PartView>, values: Seq<Seq<char>>)
    ensures
        render(a + b, values) == render(a, values) + render(b, values),
    decreases a.len(),
{
    if a.len() == 0 {
        assert(a + b =~= b);
    } else {
        assert((a + b).drop_first() =~= a.drop_first() + b);
        lemma_render_append(a.drop_first(), b, values);
        assert((a + b)[0] == a[0]);
    }
}

proof fn lemma_text_free(t: Seq<char>, pos: int, end: int, ph: Seq<Seq<char>>)
    requires
        0 <= pos <= end <= t.len(),
        placeholders_nonempty(ph),
        forall|q: int, j: int| pos <= q < end && 0 <= j < ph.len() ==> !(#[trigger] occurs_at(t, q, ph[j])),
    ensures
        piece_ok(PartView::Text(t.subrange(pos, end)), ph),
{
    let s = t.subrange(pos, end);
    assert forall|q: int, j: int| 0 <= j < ph.len() implies !(#[trigger] occurs_at(s, q, ph[j])) by {
        if occurs_at(s, q, ph[j]) {
            assert(ph[j].len() > 0);
            assert(t.subrange(pos + q, pos + q + ph[j].len()) =~= s.subrange(q, q + ph[j].len()));
            assert(occurs_at(t, pos + q, ph[j]));
        }
    }
}

proof fn lemma_plan_from(t: Seq<char>, pos: int, ph: Seq<Seq<char>>)
    requires
        0 <= pos <= t.len(),
        placeholders_nonempty(ph),
    ensures
        render(plan(t, pos, ph), ph) == t.subrange(pos, t.len() as int),
        forall|k: int| 0 <= k < plan(t, pos, ph).len() ==> piece_ok(#[trigger] plan(t, pos, ph)[k], ph),
    decreases t.len() - pos,
{
    let p = plan(t, pos, ph);
    if pos == t.len() {
        assert(t.subrange(pos, t.len() as int) =~= Seq::<char>::empty());
    } else {
        lemma_scan(t, pos, ph);
        match scan(t, pos, ph) {
            None => {
                lemma_text_free(t, pos, t.len() as int, ph);
                let one = seq![PartView::Text(t.subrange(pos, t.len() as int))];
                assert(one.drop_first() =~= Seq::<PartView>::empty());
                assert(render(Seq::<PartView>::empty(), ph) =~= Seq::<char>::empty());
                assert(render(one, ph) =~= t.subrange(pos, t.len() as int));
            },
            Some((start, i)) => {
                let head: Seq<PartView> = if start > pos {
                    seq![PartView::Text(t.subrange(pos, start))]
                } else {
                    Seq::empty()
                };
                let next = start + ph[i].len();
                lemma_plan_from(t, next, ph);
                let hv = head.push(PartView::Value(i as nat));
                let rest = plan(t, next, ph);
                assert(p == hv + rest);
                lemma_render_append(hv, rest, ph);
                if start > pos {
                    lemma_text_free(t, pos, start, ph);
                    assert(hv.drop_first() =~= seq![PartView::Value(i as nat)]);
                    assert(hv.drop_first().drop_first() =~= Seq::<PartView>::empty());
                    assert(render(Seq::<PartView>::empty(), ph) =~= Seq::<char>::empty());
                    assert(render(hv.drop_first(), ph) =~= ph[i]);
                    assert(render(hv, ph) =~= t.subrange(pos, start) + ph[i]);
                } else {
                    assert(hv.drop_first() =~= Seq::<PartView>::empty());
                    assert(render(Seq::<PartView>::empty(), ph) =~= Seq::<char>::empty());
                    assert(render(hv, ph) =~= ph[i]);
                }
                assert(t.subrange(start, next) == ph[i]);
                assert(t.subrange(pos, t.len() as int) =~= t.subrange(pos, start) + t.subrange(start, next) + t.subrange(next, t.len() as int));
                assert forall|k: int| 0 <= k < p.len() implies piece_ok(#[trigger] p[k], ph) by {
                    if k >= hv.len() {
                        assert(p[k] == rest[k - hv.len()]);
                    }
                }
            },
        }
    }
}

/// Putting each placeholder back into its slot gives the template again:
/// the split loses and invents no text.
pub proof fn law_plan_reassembles(t: Seq<char>, ph: Seq<Seq<char>>)
    requires
        placeholders_nonempty(ph),
    ensures
        render(plan(t, 0, ph), ph) == t,
{
    lemma_plan_from(t, 0, ph);
    assert(t.subrange(0, t.len() as int) =~= t);
}

/// No literal piece still holds a placeholder, so every occurrence of a
/// placeholder in the template is replaced; every slot names a placeholder.
pub proof fn law_plan_replaces_every_placeholder(t: Seq<char>, ph: Seq<Seq<char>>)
    requires
        placeholders_nonempty(ph),
    ensures
        forall|k: int| 0 <= k < plan(t, 0, ph).len() ==> piece_ok(#[trigger] plan(t, 0, ph)[k], ph),
{
    lemma_plan_from(t, 0, ph);
}

} // verus!
