//! What the writer's framing guarantees the reader.
//!
//! A written note is `---\n`, the frontmatter lines, `---\n\n`, the body.
//! When no value holds a line break, no frontmatter line starts with `-`,
//! so the first closing fence the reader finds is the writer's; and when
//! no value holds `&`, `*` or `!`, the block passes the anchor and tag
//! screen. The reader then hands the writer's block to the YAML loader and
//! gives the body back unchanged.
use vstd::prelude::*;

use crate::frontmatter::{
    after_opening_fence, attachment_text, attachments_block, attachments_text, body_after_fence,
    closing_fence_at, escape_quoted, fence_lf, find_from, has_anchor_marks, has_explicit_tag,
    items_text, kv_text, list_text, needs_quote, note_text, occurs_at, scalar_text, split_parts,
    starts_with, strip_all, title_text, Attachment, Frontmatter,
};
use crate::ids::{crockford_digit, ulid_encode};
use crate::index::strs_view;

verus! {

/// A value the writer keeps on one line and the reader's screen accepts:
/// no line break, no `&`, `*` or `!`.
pub open spec fn plain_value(s: Seq<char>) -> bool {
    forall|i: int| 0 <= i < s.len() ==> s[i] != '\n' && s[i] != '&' && s[i] != '*' && s[i] != '!'
}

/// No `&`, `*` or `!` anywhere in `s`.
pub open spec fn markless(s: Seq<char>) -> bool {
    forall|i: int| 0 <= i < s.len() ==> s[i] != '&' && s[i] != '*' && s[i] != '!'
}

/// Whole lines, none starting with `-`: empty, or ending in a line break
/// with every line (the first, and each after a break) starting otherwise.
pub open spec fn fenceless_lines(s: Seq<char>) -> bool {
    s.len() == 0 || (s.last() == '\n' && s[0] != '-' && forall|k: int|
        0 <= k < s.len() - 1 ==> #[trigger] break_then_not_dash(s, k))
}

/// A break at `k` is not followed by `-`.
pub open spec fn break_then_not_dash(s: Seq<char>, k: int) -> bool {
    s[k] == '\n' ==> s[k + 1] != '-'
}

/// Every text value of the frontmatter is plain.
pub open spec fn plain_frontmatter(fm: Frontmatter) -> bool {
    &&& plain_value(fm.created@)
    &&& plain_value(fm.updated@)
    &&& (fm.title matches Some(t) ==> plain_value(t@))
    &&& forall|i: int| 0 <= i < fm.tags@.len() ==> plain_value(#[trigger] fm.tags@[i]@)
    &&& forall|i: int| 0 <= i < fm.links@.len() ==> plain_value(#[trigger] fm.links@[i]@)
    &&& forall|i: int| 0 <= i < fm.attachments@.len() ==> plain_attachment(#[trigger] fm.attachments@[i])
}

/// The attachment's file and transcript are plain.
pub open spec fn plain_attachment(a: Attachment) -> bool {
    match a {
        Attachment::Image { file } => plain_value(file@),
        Attachment::Audio { file, transcript } => plain_value(file@) && (transcript matches Some(t)
            ==> plain_value(t@)),
    }
}

/// The frontmatter lines the writer puts between the fences.
pub open spec fn frontmatter_lines(fm: Frontmatter) -> Seq<char> {
    kv_text(seq!['i', 'd'], ulid_encode(fm.id.value)) + kv_text(
        seq!['c', 'r', 'e', 'a', 't', 'e', 'd'],
        fm.created@,
    ) + kv_text(seq!['u', 'p', 'd', 'a', 't', 'e', 'd'], fm.updated@) + title_text(fm) + list_text(
        seq!['t', 'a', 'g', 's'],
        strs_view(fm.tags@),
    ) + list_text(seq!['l', 'i', 'n', 'k', 's'], strs_view(fm.links@)) + attachments_block(
        fm.attachments@,
    )
}

proof fn lemma_concat_fenceless(a: Seq<char>, b: Seq<char>)
    requires
        fenceless_lines(a),
        fenceless_lines(b),
    ensures
        fenceless_lines(a + b),
{
    if a.len() == 0 {
        assert(a + b =~= b);
    } else if b.len() == 0 {
        assert(a + b =~= a);
    } else {
        let s = a + b;
        assert forall|k: int| 0 <= k < s.len() - 1 implies #[trigger] break_then_not_dash(s, k) by {
            if k < a.len() - 1 {
                assert(break_then_not_dash(a, k));
                assert(s[k] == a[k] && s[k + 1] == a[k + 1]);
            } else if k == a.len() - 1 {
                assert(s[k + 1] == b[0]);
            } else {
                assert(break_then_not_dash(b, k - a.len()));
                assert(s[k] == b[k - a.len()] && s[k + 1] == b[k - a.len() + 1]);
            }
        }
    }
}

proof fn lemma_concat_markless(a: Seq<char>, b: Seq<char>)
    requires
        markless(a),
        markless(b),
    ensures
        markless(a + b),
{
    assert forall|i: int| 0 <= i < (a + b).len() implies (a + b)[i] != '&' && (a + b)[i] != '*' && (a
        + b)[i] != '!' by {
        if i < a.len() {
            assert((a + b)[i] == a[i]);
        } else {
            assert((a + b)[i] == b[i - a.len()]);
        }
    }
}

proof fn lemma_one_line(s: Seq<char>)
    requires
        s.len() > 0,
        s.last() == '\n',
        s[0] != '-',
        forall|k: int| 0 <= k < s.len() - 1 ==> s[k] != '\n',
    ensures
        fenceless_lines(s),
{
    assert forall|k: int| 0 <= k < s.len() - 1 implies #[trigger] break_then_not_dash(s, k) by {}
}

proof fn lemma_escape_plain(s: Seq<char>)
    requires
        plain_value(s),
    ensures
        plain_value(escape_quoted(s)),
    decreases s.len(),
{
    if s.len() > 0 {
        lemma_escape_plain(s.drop_last());
        let c = s.last();
        let tail = if c == '\\' {
            seq!['\\', '\\']
        } else if c == '"' {
            seq!['\\', '"']
        } else {
            seq![c]
        };
        let e = escape_quoted(s.drop_last());
        assert(escape_quoted(s) == e + tail);
        assert forall|i: int| 0 <= i < (e + tail).len() implies (e + tail)[i] != '\n' && (e + tail)[i]
            != '&' && (e + tail)[i] != '*' && (e + tail)[i] != '!' by {
            if i < e.len() {
                assert((e + tail)[i] == e[i]);
            } else {
                assert((e + tail)[i] == tail[i - e.len()]);
            }
        }
    }
}

proof fn lemma_scalar_plain(s: Seq<char>)
    requires
        plain_value(s),
    ensures
        plain_value(scalar_text(s)),
{
    if needs_quote(s) {
        lemma_escape_plain(s);
        let e = escape_quoted(s);
        let q = seq!['"'] + e + seq!['"'];
        assert forall|i: int| 0 <= i < q.len() implies q[i] != '\n' && q[i] != '&' && q[i] != '*'
            && q[i] != '!' by {
            if i == 0 {
            } else if i < e.len() + 1 {
                assert(q[i] == e[i - 1]);
            } else {
            }
        }
    }
}

/// A line `prefix + value + "\n"` where the prefix starts otherwise than
/// `-` and neither holds a break or a mark.
proof fn lemma_line_with(prefix: Seq<char>, v: Seq<char>)
    requires
        prefix.len() > 0,
        prefix[0] != '-',
        plain_value(prefix),
        plain_value(v),
    ensures
        fenceless_lines(prefix + scalar_text(v) + seq!['\n']),
        markless(prefix + scalar_text(v) + seq!['\n']),
{
    lemma_scalar_plain(v);
    let t = scalar_text(v);
    let s = prefix + t + seq!['\n'];
    assert forall|k: int| 0 <= k < s.len() - 1 implies s[k] != '\n' && s[k] != '&' && s[k] != '*'
        && s[k] != '!' by {
        if k < prefix.len() {
            assert(s[k] == prefix[k]);
        } else {
            assert(s[k] == t[k - prefix.len()]);
        }
    }
    assert(s[0] == prefix[0]);
    lemma_one_line(s);
}

proof fn lemma_kv(key: Seq<char>, v: Seq<char>)
    requires
        key.len() > 0,
        key[0] != '-',
        plain_value(key),
        plain_value(v),
    ensures
        fenceless_lines(kv_text(key, v)),
        markless(kv_text(key, v)),
{
    let p = key + seq![':', ' '];
    assert(plain_value(p)) by {
        assert forall|i: int| 0 <= i < p.len() implies p[i] != '\n' && p[i] != '&' && p[i] != '*'
            && p[i] != '!' by {
            if i < key.len() {
                assert(p[i] == key[i]);
            }
        }
    }
    assert(p[0] == key[0]);
    lemma_line_with(p, v);
    assert(kv_text(key, v) =~= p + scalar_text(v) + seq!['\n']);
}

proof fn lemma_items(items: Seq<Seq<char>>)
    requires
        forall|i: int| 0 <= i < items.len() ==> plain_value(#[trigger] items[i]),
    ensures
        fenceless_lines(items_text(items)),
        markless(items_text(items)),
        items.len() > 0 ==> items_text(items)[0] == ' ',
    decreases items.len(),
{
    if items.len() > 0 {
        let front = items.drop_last();
        assert forall|i: int| 0 <= i < front.len() implies plain_value(#[trigger] front[i]) by {
            assert(front[i] == items[i]);
        }
        lemma_items(front);
        let p = seq![' ', ' ', '-', ' '];
        lemma_line_with(p, items.last());
        let line = p + scalar_text(items.last()) + seq!['\n'];
        assert(items_text(items) == items_text(front) + line);
        lemma_concat_fenceless(items_text(front), line);
        lemma_concat_markless(items_text(front), line);
        if front.len() == 0 {
            assert(items_text(front) =~= Seq::<char>::empty());
            assert(items_text(items) =~= line);
        } else {
            assert(items_text(items)[0] == items_text(front)[0]);
        }
    }
}

proof fn lemma_list(key: Seq<char>, items: Seq<Seq<char>>)
    requires
        key.len() > 0,
        key[0] != '-',
        plain_value(key),
        forall|i: int| 0 <= i < items.len() ==> plain_value(#[trigger] items[i]),
    ensures
        fenceless_lines(list_text(key, items)),
        markless(list_text(key, items)),
{
    if items.len() > 0 {
        lemma_items(items);
        let h = key + seq![':', '\n'];
        assert forall|k: int| 0 <= k < h.len() - 1 implies h[k] != '\n' by {
            if k < key.len() {
                assert(h[k] == key[k]);
            }
        }
        assert(h[0] == key[0]);
        lemma_one_line(h);
        assert(markless(h)) by {
            assert forall|i: int| 0 <= i < h.len() implies h[i] != '&' && h[i] != '*' && h[i] != '!' by {
                if i < key.len() {
                    assert(h[i] == key[i]);
                }
            }
        }
        lemma_concat_fenceless(h, items_text(items));
        lemma_concat_markless(h, items_text(items));
        assert(list_text(key, items) =~= h + items_text(items));
    } else {
        assert(list_text(key, items) =~= Seq::<char>::empty());
    }
}

proof fn lemma_fixed_line(s: Seq<char>)
    requires
        s.len() > 0,
        s.last() == '\n',
        s[0] != '-',
        forall|k: int| 0 <= k < s.len() - 1 ==> s[k] != '\n',
        markless(s),
    ensures
        fenceless_lines(s),
        markless(s),
{
    lemma_one_line(s);
}

proof fn lemma_attachment(a: Attachment)
    requires
        plain_attachment(a),
    ensures
        fenceless_lines(attachment_text(a)),
        markless(attachment_text(a)),
{
    let file_prefix = seq![' ', ' ', ' ', ' ', 'f', 'i', 'l', 'e', ':', ' '];
    match a {
        Attachment::Image { file } => {
            let k = seq![' ', ' ', '-', ' ', 'k', 'i', 'n', 'd', ':', ' ', 'i', 'm', 'a', 'g', 'e', '\n'];
            lemma_fixed_line(k);
            lemma_line_with(file_prefix, file@);
            let f = file_prefix + scalar_text(file@) + seq!['\n'];
            lemma_concat_fenceless(k, f);
            lemma_concat_markless(k, f);
            assert(attachment_text(a) =~= k + f);
        },
        Attachment::Audio { file, transcript } => {
            let k = seq![' ', ' ', '-', ' ', 'k', 'i', 'n', 'd', ':', ' ', 'a', 'u', 'd', 'i', 'o', '\n'];
            lemma_fixed_line(k);
            lemma_line_with(file_prefix, file@);
            let f = file_prefix + scalar_text(file@) + seq!['\n'];
            lemma_concat_fenceless(k, f);
            lemma_concat_markless(k, f);
            let t = match transcript {
                Some(tr) => seq![' ', ' ', ' ', ' ', 't', 'r', 'a', 'n', 's', 'c', 'r', 'i', 'p', 't', ':', ' ']
                    + scalar_text(tr@) + seq!['\n'],
                None => Seq::empty(),
            };
            match transcript {
                Some(tr) => {
                    lemma_line_with(seq![' ', ' ', ' ', ' ', 't', 'r', 'a', 'n', 's', 'c', 'r', 'i', 'p', 't', ':', ' '], tr@);
                },
                None => {},
            }
            lemma_concat_fenceless(k + f, t);
            lemma_concat_markless(k + f, t);
            assert(attachment_text(a) =~= k + f + t);
        },
    }
}

proof fn lemma_attachments(atts: Seq<Attachment>)
    requires
        forall|i: int| 0 <= i < atts.len() ==> plain_attachment(#[trigger] atts[i]),
    ensures
        fenceless_lines(attachments_text(atts)),
        markless(attachments_text(atts)),
    decreases atts.len(),
{
    if atts.len() > 0 {
        let front = atts.drop_last();
        assert forall|i: int| 0 <= i < front.len() implies plain_attachment(#[trigger] front[i]) by {
            assert(front[i] == atts[i]);
        }
        lemma_attachments(front);
        lemma_attachment(atts.last());
        lemma_concat_fenceless(attachments_text(front), attachment_text(atts.last()));
        lemma_concat_markless(attachments_text(front), attachment_text(atts.last()));
    } else {
        assert(attachments_text(atts) =~= Seq::<char>::empty());
    }
}

proof fn lemma_id_plain(v: u128)
    ensures
        plain_value(ulid_encode(v)),
{
    let s = ulid_encode(v);
    assert forall|i: int| 0 <= i < s.len() implies s[i] != '\n' && s[i] != '&' && s[i] != '*' && s[i]
        != '!' by {
        let d = (v as int / crate::ids::pow32((25 - i) as nat)) % 32;
        crate::ids::lemma_pow32_positive((25 - i) as nat);
        vstd::arithmetic::div_mod::lemma_div_pos_is_pos(v as int, crate::ids::pow32((25 - i) as nat));
        vstd::arithmetic::div_mod::lemma_mod_pos_bound(v as int / crate::ids::pow32((25 - i) as nat), 32);
        crate::ids::lemma_digit_round_trip(d);
    }
}

proof fn lemma_lines(fm: Frontmatter)
    requires
        plain_frontmatter(fm),
    ensures
        fenceless_lines(frontmatter_lines(fm)),
        markless(frontmatter_lines(fm)),
        frontmatter_lines(fm).len() > 0,
{
    lemma_id_plain(fm.id.value);
    let kid = seq!['i', 'd'];
    let kc = seq!['c', 'r', 'e', 'a', 't', 'e', 'd'];
    let ku = seq!['u', 'p', 'd', 'a', 't', 'e', 'd'];
    let kt = seq!['t', 'a', 'g', 's'];
    let kl = seq!['l', 'i', 'n', 'k', 's'];
    lemma_kv(kid, ulid_encode(fm.id.value));
    lemma_kv(kc, fm.created@);
    lemma_kv(ku, fm.updated@);
    let a = kv_text(kid, ulid_encode(fm.id.value));
    let b = kv_text(kc, fm.created@);
    let c = kv_text(ku, fm.updated@);
    match fm.title {
        Some(t) => {
            lemma_kv(seq!['t', 'i', 't', 'l', 'e'], t@);
        },
        None => {
            assert(title_text(fm) =~= Seq::<char>::empty());
        },
    }
    let d = title_text(fm);
    let tags = strs_view(fm.tags@);
    assert forall|i: int| 0 <= i < tags.len() implies plain_value(#[trigger] tags[i]) by {
        assert(tags[i] == fm.tags@[i]@);
    }
    lemma_list(kt, tags);
    let links = strs_view(fm.links@);
    assert forall|i: int| 0 <= i < links.len() implies plain_value(#[trigger] links[i]) by {
        assert(links[i] == fm.links@[i]@);
    }
    lemma_list(kl, links);
    let e = list_text(kt, tags);
    let f = list_text(kl, links);
    lemma_attachments(fm.attachments@);
    let g = attachments_block(fm.attachments@);
    if fm.attachments@.len() > 0 {
        let h = seq!['a', 't', 't', 'a', 'c', 'h', 'm', 'e', 'n', 't', 's', ':', '\n'];
        lemma_fixed_line(h);
        lemma_concat_fenceless(h, attachments_text(fm.attachments@));
        lemma_concat_markless(h, attachments_text(fm.attachments@));
        assert(g =~= h + attachments_text(fm.attachments@));
    } else {
        assert(g =~= Seq::<char>::empty());
    }
    lemma_concat_fenceless(a, b);
    lemma_concat_markless(a, b);
    lemma_concat_fenceless(a + b, c);
    lemma_concat_markless(a + b, c);
    lemma_concat_fenceless(a + b + c, d);
    lemma_concat_markless(a + b + c, d);
    lemma_concat_fenceless(a + b + c + d, e);
    lemma_concat_markless(a + b + c + d, e);
    lemma_concat_fenceless(a + b + c + d + e, f);
    lemma_concat_markless(a + b + c + d + e, f);
    lemma_concat_fenceless(a + b + c + d + e + f, g);
    lemma_concat_markless(a + b + c + d + e + f, g);
    assert(frontmatter_lines(fm) == a + b + c + d + e + f + g);
    assert(a.len() > 0);
}

proof fn lemma_first_fence(rest: Seq<char>, y: Seq<char>, i: int)
    requires
        fenceless_lines(y),
        y.len() > 0,
        rest.len() >= y.len() + 4,
        rest.take(y.len() as int) == y,
        rest.subrange(y.len() as int, y.len() + 4int) == seq!['-', '-', '-', '\n'],
        0 <= i <= y.len() - 1,
    ensures
        find_from(rest, seq!['\n', '-', '-', '-', '\n'], i) == Some(y.len() - 1),
    decreases y.len() - 1 - i,
{
    let p = seq!['\n', '-', '-', '-', '\n'];
    assert(rest[y.len() - 1] == y[y.len() - 1]);
    if i == y.len() - 1 {
        assert(rest.subrange(i, i + 5) =~= p) by {
            assert forall|k: int| 1 <= k < 5 implies rest[i + k] == p[k] by {
                assert(rest.subrange(y.len() as int, y.len() + 4int)[k - 1] == rest[y.len() + k - 1]);
            }
        }
        assert(occurs_at(rest, p, i));
    } else {
        assert(rest[i] == y[i] && rest[i + 1] == y[i + 1]);
        assert(break_then_not_dash(y, i));
        if occurs_at(rest, p, i) {
            assert(rest.subrange(i, i + 5)[0] == rest[i]);
            assert(rest.subrange(i, i + 5)[1] == rest[i + 1]);
        }
        lemma_first_fence(rest, y, i + 1);
    }
}

proof fn lemma_body_after_fence(body: Seq<char>)
    requires
        !starts_with(body, seq!['\n']),
        !starts_with(body, seq!['\r', '\n']),
    ensures
        body_after_fence(seq!['\n', '-', '-', '-', '\n', '\n'] + body) == body,
{
    let t = seq!['\n', '-', '-', '-', '\n', '\n'] + body;
    let nl = seq!['\n'];
    let dashes = seq!['-', '-', '-'];
    assert(starts_with(t, nl)) by {
        assert(t.take(1) =~= nl);
    }
    let t1 = t.skip(1);
    assert(t1 =~= seq!['-', '-', '-', '\n', '\n'] + body);
    assert(!starts_with(t1, nl)) by {
        assert(t1.take(1)[0] == '-');
    }
    assert(strip_all(t1, nl) == t1);
    assert(strip_all(t, nl) == t1);
    assert(starts_with(t1, dashes)) by {
        assert(t1.take(3) =~= dashes);
    }
    let t2 = t1.skip(3);
    assert(t2 =~= seq!['\n', '\n'] + body);
    assert(!starts_with(t2, dashes)) by {
        if t2.len() >= 3 {
            assert(t2.take(3)[0] == t2[0]);
        }
    }
    assert(strip_all(t2, dashes) == t2);
    assert(strip_all(t1, dashes) == t2);
    assert(starts_with(t2, nl)) by {
        assert(t2.take(1) =~= nl);
    }
    let t3 = t2.skip(1);
    assert(t3 =~= seq!['\n'] + body);
    assert(starts_with(t3, nl)) by {
        assert(t3.take(1) =~= nl);
    }
    assert(t3.skip(1) =~= body);
    assert(strip_all(body, nl) == body);
    assert(strip_all(t3, nl) == body);
    assert(strip_all(t2, nl) == body);
    assert(strip_all(body, seq!['\r', '\n']) == body);
}

proof fn lemma_note_shape(fm: Frontmatter, body: Seq<char>)
    ensures
        note_text(fm, body) == fence_lf() + (frontmatter_lines(fm) + (seq!['-', '-', '-', '\n', '\n'] + body)),
{
    assert(note_text(fm, body) =~= fence_lf() + (frontmatter_lines(fm) + (seq!['-', '-', '-', '\n', '\n'] + body)));
}

proof fn lemma_split_lines(y: Seq<char>, body: Seq<char>)
    requires
        fenceless_lines(y),
        markless(y),
        y.len() > 0,
        !starts_with(body, seq!['\n']),
        !starts_with(body, seq!['\r', '\n']),
    ensures
        split_parts(fence_lf() + (y + (seq!['-', '-', '-', '\n', '\n'] + body))) == Some((y.drop_last(), body)),
        !has_anchor_marks(y.drop_last()),
        !has_explicit_tag(y.drop_last()),
{
    let rest = y + (seq!['-', '-', '-', '\n', '\n'] + body);
    let s = fence_lf() + rest;
    assert(starts_with(s, fence_lf())) by {
        assert(s.take(4) =~= fence_lf());
    }
    assert(after_opening_fence(s) == Some(rest)) by {
        assert(s.skip(4) =~= rest);
    }
    assert(rest.take(y.len() as int) =~= y);
    assert(rest.subrange(y.len() as int, y.len() + 4int) =~= seq!['-', '-', '-', '\n']);
    lemma_first_fence(rest, y, 0);
    assert(closing_fence_at(rest) == Some(y.len() - 1));
    assert(rest.take(y.len() - 1) =~= y.drop_last());
    assert(rest.skip(y.len() - 1) =~= seq!['\n', '-', '-', '-', '\n', '\n'] + body);
    lemma_body_after_fence(body);
    let yd = y.drop_last();
    assert(markless(yd)) by {
        assert forall|i: int| 0 <= i < yd.len() implies yd[i] != '&' && yd[i] != '*' && yd[i] != '!' by {
            assert(yd[i] == y[i]);
        }
    }
    assert(!yd.contains('&'));
    assert(!yd.contains('*'));
}

/// A note written from plain values splits back into the writer's
/// frontmatter block (its lines without the last break) and the body, and
/// the block passes the anchor and tag screen — provided the body does not
/// itself start with a line break, which the reader would take as part of
/// the fence.
pub proof fn law_written_note_splits_back(fm: Frontmatter, body: Seq<char>)
    requires
        plain_frontmatter(fm),
        !starts_with(body, seq!['\n']),
        !starts_with(body, seq!['\r', '\n']),
    ensures
        split_parts(note_text(fm, body)) == Some((frontmatter_lines(fm).drop_last(), body)),
        !has_anchor_marks(frontmatter_lines(fm).drop_last()),
        !has_explicit_tag(frontmatter_lines(fm).drop_last()),
{
    lemma_lines(fm);
    lemma_note_shape(fm, body);
    lemma_split_lines(frontmatter_lines(fm), body);
}

} // verus!
