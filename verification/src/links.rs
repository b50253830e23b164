//! Wikilink parser.
//!
//! Note bodies use Obsidian-style `[[…]]` syntax:
//!
//!     [[Title]]                — link by exact title
//!     [[Title|alias]]          — link with display alias
//!     [[01HXYZ…]]              — link by ULID (rename-stable)
//!     \[[not a link]]          — escaped, parser ignores
//!
//! The parser returns the list of `Wikilink` records; resolving each one to
//! a note (or marking it dangling) is the index's job.
use vstd::prelude::*;
use vstd::string::StringSliceAdditionalSpecFns;
use vstd::utf8::*;

use crate::text::{
    chars_of, lemma_encode_utf8_concat, lemma_utf8_len_take_le, lemma_utf8_len_take_step, string_from_range, trim, trim_bounds,
    utf8_width,
};

verus! {

/// One parsed wikilink occurrence.
#[derive(Debug, Clone, PartialEq, Eq)]
pub struct Wikilink {
    /// The raw matched text including delimiters, e.g. `[[Title|alias]]`.
    pub raw: String,
    /// The byte offset of the match start within the input.
    pub start: usize,
    /// The link target before the optional `|alias`. Trimmed.
    pub target_text: String,
    /// Display alias if `[[target|alias]]`. Trimmed; None if not provided.
    pub alias: Option<String>,
}

/// The mathematical content of a [`Wikilink`].
pub struct WikilinkView {
    pub raw: Seq<char>,
    pub start: nat,
    pub target_text: Seq<char>,
    pub alias: Option<Seq<char>>,
}

/// The view of an optional string.
pub open spec fn opt_view(o: Option<String>) -> Option<Seq<char>> {
    match o {
        Some(s) => Some(s@),
        None => None,
    }
}

impl View for Wikilink {
    type V = WikilinkView;

    open spec fn view(&self) -> WikilinkView {
        WikilinkView {
            raw: self.raw@,
            start: self.start as nat,
            target_text: self.target_text@,
            alias: opt_view(self.alias),
        }
    }
}

/// The `[[` at `i` is cancelled by a single backslash directly before it
/// (a doubled backslash escapes itself and leaves the link active).
pub open spec fn escaped_at(s: Seq<char>, i: int) -> bool {
    i > 0 && s[i - 1] == '\\' && (i < 2 || s[i - 2] != '\\')
}

/// Position of the `]]` that closes a link whose inner text starts at `j`:
/// the first `]` after `j`, when it is doubled and no newline or `[` comes
/// before it; `None` when the target would hold a newline, `[` or `]`.
pub open spec fn find_close(s: Seq<char>, j: int) -> Option<int>
    decreases s.len() - j,
{
    if j < 0 || j + 1 >= s.len() {
        None
    } else if s[j] == '\n' || s[j] == '[' {
        None
    } else if s[j] == ']' {
        if s[j + 1] == ']' {
            Some(j)
        } else {
            None
        }
    } else {
        find_close(s, j + 1)
    }
}

/// First index of `c` in `s` at or after `k`.
pub open spec fn index_of_from(s: Seq<char>, c: char, k: int) -> Option<int>
    decreases s.len() - k,
{
    if k < 0 || k >= s.len() {
        None
    } else if s[k] == c {
        Some(k)
    } else {
        index_of_from(s, c, k + 1)
    }
}

/// The link whose `[[` is at `i` and whose `]]` is at `close`, if its
/// trimmed target is non-empty.
pub open spec fn link_at(s: Seq<char>, i: int, close: int) -> Option<WikilinkView> {
    let inner = s.subrange(i + 2, close);
    let target = match index_of_from(inner, '|', 0) {
        Some(p) => trim(inner.take(p)),
        None => trim(inner),
    };
    let alias = match index_of_from(inner, '|', 0) {
        Some(p) => Some(trim(inner.skip(p + 1))),
        None => None,
    };
    if target.len() == 0 {
        None
    } else {
        Some(
            WikilinkView {
                raw: s.subrange(i, close + 2),
                start: encode_utf8(s.take(i)).len(),
                target_text: target,
                alias,
            },
        )
    }
}

/// The wikilinks of `s` found by scanning from position `i`.
pub open spec fn links_from(s: Seq<char>, i: int) -> Seq<WikilinkView>
    decreases s.len() - i,
{
    if i < 0 || i + 1 >= s.len() {
        Seq::empty()
    } else if s[i] == '[' && s[i + 1] == '[' && !escaped_at(s, i) {
        match find_close(s, i + 2) {
            Some(c) => {
                if c >= i + 2 && c + 2 <= s.len() {
                    let here = match link_at(s, i, c) {
                        Some(l) => seq![l],
                        None => Seq::empty(),
                    };
                    here + links_from(s, c + 2)
                } else {
                    Seq::empty()
                }
            },
            None => links_from(s, i + 1),
        }
    } else {
        links_from(s, i + 1)
    }
}

/// Every wikilink of a body, in order of appearance.
pub open spec fn wikilinks(s: Seq<char>) -> Seq<WikilinkView> {
    links_from(s, 0)
}

proof fn lemma_find_close_ge(s: Seq<char>, j: int)
    ensures
        find_close(s, j) matches Some(c) ==> j <= c && c + 1 < s.len() && s[c] == ']' && s[c
            + 1] == ']',
    decreases s.len() - j,
{
    if j >= 0 && j + 1 < s.len() && !(s[j] == '\n' || s[j] == '[') && s[j] != ']' {
        lemma_find_close_ge(s, j + 1);
    }
}

proof fn lemma_index_of_from_range(s: Seq<char>, c: char, k: int)
    ensures
        index_of_from(s, c, k) matches Some(p) ==> k <= p < s.len() && s[p] == c,
    decreases s.len() - k,
{
    if k >= 0 && k < s.len() && s[k] != c {
        lemma_index_of_from_range(s, c, k + 1);
    }
}

/// Finds the closing `]]` for inner text starting at `j`.
fn scan_close(v: &Vec<char>, j: usize) -> (r: Option<usize>)
    requires
        j <= v.len(),
    ensures
        match r {
            Some(c) => find_close(v@, j as int) == Some(c as int),
            None => find_close(v@, j as int) is None,
        },
{
    let n = v.len();
    if n == 0 {
        return None;
    }
    let mut k = j;
    while k < n - 1
        invariant
            j <= k <= n,
            n == v.len(),
            n > 0,
            find_close(v@, j as int) == find_close(v@, k as int),
        decreases n - k,
    {
        let b = v[k];
        if b == '\n' || b == '[' {
            return None;
        }
        if b == ']' {
            if v[k + 1] == ']' {
                return Some(k);
            }
            return None;
        }
        k += 1;
    }
    None
}

/// First index of `c` in `v[lo..hi]`, relative to `lo`.
fn scan_char(v: &Vec<char>, lo: usize, hi: usize, c: char) -> (r: Option<usize>)
    requires
        lo <= hi <= v.len(),
    ensures
        match r {
            Some(p) => index_of_from(v@.subrange(lo as int, hi as int), c, 0) == Some(p as int),
            None => index_of_from(v@.subrange(lo as int, hi as int), c, 0) is None,
        },
{
    let ghost inner = v@.subrange(lo as int, hi as int);
    let mut k = lo;
    while k < hi
        invariant
            lo <= k <= hi <= v.len(),
            inner == v@.subrange(lo as int, hi as int),
            index_of_from(inner, c, 0) == index_of_from(inner, c, k - lo),
        decreases hi - k,
    {
        if v[k] == c {
            assert(inner[k - lo] == c);
            return Some(k - lo);
        }
        assert(inner[k - lo] != c);
        k += 1;
    }
    None
}

/// Sum of the UTF-8 widths of `v[lo..hi]` added to `acc`.
fn utf8_advance(v: &Vec<char>, lo: usize, hi: usize, acc: usize, Ghost(total): Ghost<nat>) -> (r: usize)
    requires
        lo <= hi <= v.len(),
        acc == encode_utf8(v@.take(lo as int)).len(),
        total == encode_utf8(v@).len(),
        total <= usize::MAX,
    ensures
        r == encode_utf8(v@.take(hi as int)).len(),
{
    let mut k = lo;
    let mut a = acc;
    while k < hi
        invariant
            lo <= k <= hi <= v.len(),
            a == encode_utf8(v@.take(k as int)).len(),
            total == encode_utf8(v@).len(),
            total <= usize::MAX,
        decreases hi - k,
    {
        proof {
            lemma_utf8_len_take_step(v@, k as int);
            lemma_utf8_len_take_le(v@, k + 1);
        }
        let w = utf8_width(v[k]);
        a = a + w;
        k += 1;
    }
    a
}

/// Builds the link record for `[[` at `i` and `]]` at `close`, if its
/// target is non-empty.
fn make_link(v: &Vec<char>, i: usize, close: usize, start: usize) -> (r: Option<Wikilink>)
    requires
        i + 2 <= close,
        close + 2 <= v.len(),
        start == encode_utf8(v@.take(i as int)).len(),
    ensures
        match r {
            Some(w) => link_at(v@, i as int, close as int) == Some(w@),
            None => link_at(v@, i as int, close as int) is None,
        },
{
    let ghost inner = v@.subrange(i + 2, close as int);
    let lo = i + 2;
    let bar = scan_char(v, lo, close, '|');
    proof {
        lemma_index_of_from_range(inner, '|', 0);
    }
    let (tb, alias) = match bar {
        Some(p) => {
            let (ta, tz) = trim_bounds(v, lo, lo + p);
            let (aa, az) = trim_bounds(v, lo + p + 1, close);
            proof {
                assert(inner.take(p as int) =~= v@.subrange(lo as int, lo + p));
                assert(inner.skip(p + 1) =~= v@.subrange(lo + p + 1, close as int));
            }
            ((ta, tz), Some(string_from_range(v, aa, az)))
        },
        None => {
            let (ta, tz) = trim_bounds(v, lo, close);
            ((ta, tz), None)
        },
    };
    let (ta, tz) = tb;
    if ta == tz {
        return None;
    }
    let target = string_from_range(v, ta, tz);
    let raw = string_from_range(v, i, close + 2);
    Some(Wikilink { raw, start, target_text: target, alias })
}

/// Extract every wikilink from `body`. Handles escaped `\[[`, requires a
/// closing `]]`, and rejects targets containing newlines or `[]` chars.
pub fn parse(body: &str) -> (out: Vec<Wikilink>)
    ensures
        out@.map_values(|w: Wikilink| w@) == wikilinks(body@),
{
    let v = chars_of(body);
    let n = v.len();
    let ghost s = v@;
    let ghost total = encode_utf8(s).len();
    let bytes = body.as_bytes();
    let blen = bytes.len();
    assert(body.spec_bytes() == encode_utf8(body@));
    assert(blen == total);
    let mut out: Vec<Wikilink> = Vec::new();
    let mut i: usize = 0;
    let mut pos: usize = 0;
    assert(s.take(0) =~= Seq::<char>::empty());
    assert(encode_utf8(Seq::<char>::empty()) =~= Seq::<u8>::empty());
    while n > 0 && i < n - 1
        invariant
            s == v@,
            n == v.len(),
            i <= n,
            total == encode_utf8(s).len(),
            total <= usize::MAX,
            pos == encode_utf8(s.take(i as int)).len(),
            out@.map_values(|w: Wikilink| w@) + links_from(s, i as int) == wikilinks(s),
        decreases n - i,
    {
        if v[i] == '[' && v[i + 1] == '[' {
            let escaped = i > 0 && v[i - 1] == '\\' && (i < 2 || v[i - 2] != '\\');
            if escaped {
                assert(escaped_at(s, i as int));
                pos = utf8_advance(&v, i, i + 1, pos, Ghost(total));
                i += 1;
                continue;
            }
            assert(!escaped_at(s, i as int));
            let close = scan_close(&v, i + 2);
            match close {
                Some(c) => {
                    proof {
                        lemma_find_close_ge(s, i + 2);
                    }
                    let link = make_link(&v, i, c, pos);
                    let ghost before = out@.map_values(|w: Wikilink| w@);
                    match link {
                        Some(w) => {
                            out.push(w);
                            assert(out@.map_values(|w: Wikilink| w@) =~= before.push(w@));
                            assert(links_from(s, i as int) == seq![w@] + links_from(s, c + 2));
                            assert(before.push(w@) + links_from(s, c + 2) =~= before + (seq![w@]
                                + links_from(s, c + 2)));
                        },
                        None => {
                            assert(links_from(s, i as int) =~= links_from(s, c + 2));
                        },
                    }
                    pos = utf8_advance(&v, i, c + 2, pos, Ghost(total));
                    i = c + 2;
                    continue;
                },
                None => {},
            }
        }
        pos = utf8_advance(&v, i, i + 1, pos, Ghost(total));
        i += 1;
    }
    assert(links_from(s, i as int) =~= Seq::<WikilinkView>::empty());
    assert(out@.map_values(|w: Wikilink| w@) + Seq::<WikilinkView>::empty() =~= out@.map_values(
        |w: Wikilink| w@,
    ));
    out
}

// ───────────────────────── laws ────────────────────────────────────────

/// Byte length of a prefix is monotone, strictly so when the prefix grows.
proof fn lemma_utf8_take_mono(s: Seq<char>, a: int, b: int)
    requires
        0 <= a <= b <= s.len(),
    ensures
        encode_utf8(s.take(a)).len() <= encode_utf8(s.take(b)).len(),
        a < b ==> encode_utf8(s.take(a)).len() < encode_utf8(s.take(b)).len(),
    decreases b - a,
{
    if a < b {
        lemma_utf8_take_mono(s, a, b - 1);
        lemma_utf8_len_take_step(s, b - 1);
    }
}

/// The bytes of `s` split around the span `[a, c)`.
proof fn lemma_span_bytes(s: Seq<char>, a: int, c: int)
    requires
        0 <= a <= c <= s.len(),
    ensures
        encode_utf8(s) == encode_utf8(s.take(a)) + encode_utf8(s.subrange(a, c)) + encode_utf8(
            s.skip(c),
        ),
{
    assert(s =~= s.take(a) + (s.subrange(a, c) + s.skip(c)));
    lemma_encode_utf8_concat(s.take(a), s.subrange(a, c) + s.skip(c));
    lemma_encode_utf8_concat(s.subrange(a, c), s.skip(c));
    assert(encode_utf8(s.take(a)) + (encode_utf8(s.subrange(a, c)) + encode_utf8(s.skip(c)))
        =~= encode_utf8(s.take(a)) + encode_utf8(s.subrange(a, c)) + encode_utf8(s.skip(c)));
}

/// The raw text of a link occupies exactly its bytes of the body.
pub open spec fn span_matches(s: Seq<char>, w: WikilinkView) -> bool {
    &&& w.start + encode_utf8(w.raw).len() <= encode_utf8(s).len()
    &&& encode_utf8(s).subrange(w.start as int, (w.start + encode_utf8(w.raw).len()) as int)
        == encode_utf8(w.raw)
}

proof fn lemma_links_from_facts(s: Seq<char>, i: int)
    requires
        0 <= i <= s.len(),
    ensures
        forall|k: int|
            0 <= k < links_from(s, i).len() ==> span_matches(s, #[trigger] links_from(s, i)[k])
                && links_from(s, i)[k].start >= encode_utf8(s.take(i)).len(),
        forall|k1: int, k2: int|
            0 <= k1 < k2 < links_from(s, i).len() ==> #[trigger] links_from(s, i)[k1].start
                < #[trigger] links_from(s, i)[k2].start,
    decreases s.len() - i,
{
    if i + 1 >= s.len() {
    } else if s[i] == '[' && s[i + 1] == '[' && !escaped_at(s, i) {
        match find_close(s, i + 2) {
            Some(c) => {
                if c >= i + 2 && c + 2 <= s.len() {
                    lemma_links_from_facts(s, c + 2);
                    lemma_utf8_take_mono(s, i, c + 2);
                    let rest = links_from(s, c + 2);
                    match link_at(s, i, c) {
                        Some(l) => {
                            lemma_span_bytes(s, i, c + 2);
                            let pre = encode_utf8(s.take(i));
                            let mid = encode_utf8(s.subrange(i, c + 2));
                            let post = encode_utf8(s.skip(c + 2));
                            assert((pre + mid + post).subrange(pre.len() as int, (pre.len() + mid.len()) as int)
                                =~= mid);
                            assert(span_matches(s, l));
                            assert(links_from(s, i) =~= seq![l] + rest);
                            assert forall|k: int| 0 <= k < links_from(s, i).len() implies span_matches(
                                s,
                                #[trigger] links_from(s, i)[k],
                            ) && links_from(s, i)[k].start >= encode_utf8(s.take(i)).len() by {
                                if k > 0 {
                                    assert(links_from(s, i)[k] == rest[k - 1]);
                                }
                            }
                            assert forall|k1: int, k2: int|
                                0 <= k1 < k2 < links_from(
                                    s,
                                    i,
                                ).len() implies #[trigger] links_from(s, i)[k1].start
                                < #[trigger] links_from(s, i)[k2].start by {
                                assert(links_from(s, i)[k2] == rest[k2 - 1]);
                                if k1 > 0 {
                                    assert(links_from(s, i)[k1] == rest[k1 - 1]);
                                }
                            }
                        },
                        None => {
                            assert(links_from(s, i) =~= rest);
                        },
                    }
                }
            },
            None => {
                lemma_links_from_facts(s, i + 1);
                lemma_utf8_take_mono(s, i, i + 1);
            },
        }
    } else {
        lemma_links_from_facts(s, i + 1);
        lemma_utf8_take_mono(s, i, i + 1);
    }
}

/// Links come out in order of appearance: their start offsets strictly
/// increase.
pub proof fn law_links_start_strictly_increasing(s: Seq<char>)
    ensures
        forall|k1: int, k2: int|
            0 <= k1 < k2 < wikilinks(s).len() ==> #[trigger] wikilinks(s)[k1].start
                < #[trigger] wikilinks(s)[k2].start,
{
    lemma_links_from_facts(s, 0);
}

/// The bytes of the body from `start` for the length of `raw` are exactly
/// the bytes of `raw`: a renderer can replace each link in place.
pub proof fn law_links_raw_span_round_trips(s: Seq<char>)
    ensures
        forall|k: int| 0 <= k < wikilinks(s).len() ==> span_matches(s, #[trigger] wikilinks(s)[k]),
{
    lemma_links_from_facts(s, 0);
}

proof fn lemma_no_open_bracket_no_links(s: Seq<char>, i: int)
    requires
        0 <= i <= s.len(),
        forall|k: int| 0 <= k < s.len() ==> s[k] != '[',
    ensures
        links_from(s, i) == Seq::<WikilinkView>::empty(),
    decreases s.len() - i,
{
    if i + 1 < s.len() {
        lemma_no_open_bracket_no_links(s, i + 1);
    }
}

/// The text `[[t]]`.
pub open spec fn link_text(t: Seq<char>) -> Seq<char> {
    seq!['[', '['] + t + seq![']', ']']
}

proof fn lemma_find_close_body(s: Seq<char>, j: int, c: int)
    requires
        0 <= j <= c,
        c + 1 < s.len(),
        s[c] == ']',
        s[c + 1] == ']',
        forall|k: int| j <= k < c ==> s[k] != '\n' && s[k] != '[' && s[k] != ']',
    ensures
        find_close(s, j) == Some(c),
    decreases c - j,
{
    if j < c {
        lemma_find_close_body(s, j + 1, c);
    }
}

proof fn lemma_find_close_blocked(s: Seq<char>, j: int, q: int)
    requires
        0 <= j <= q + 1,
        q + 1 < s.len(),
        s[q] == '[',
        s[q + 1] == '[',
    ensures
        find_close(s, j) matches Some(c) ==> c + 1 < q,
    decreases q + 1 - j,
{
    if j + 1 < s.len() && !(s[j] == '\n' || s[j] == '[') && s[j] != ']' {
        lemma_find_close_blocked(s, j + 1, q);
    }
}

proof fn lemma_links_reach(s: Seq<char>, i: int, q: int, w: WikilinkView)
    requires
        0 <= i <= q,
        q + 1 < s.len(),
        s[q] == '[',
        s[q + 1] == '[',
        links_from(s, q).contains(w),
    ensures
        links_from(s, i).contains(w),
    decreases q - i,
{
    if i < q {
        if s[i] == '[' && s[i + 1] == '[' && !escaped_at(s, i) {
            match find_close(s, i + 2) {
                Some(c) => {
                    lemma_find_close_blocked(s, i + 2, q);
                    lemma_find_close_ge(s, i + 2);
                    lemma_links_reach(s, c + 2, q, w);
                    let here = match link_at(s, i, c) {
                        Some(l) => seq![l],
                        None => Seq::<WikilinkView>::empty(),
                    };
                    let rest = links_from(s, c + 2);
                    let k = choose|k: int| 0 <= k < rest.len() && rest[k] == w;
                    assert((here + rest)[here.len() + k] == w);
                },
                None => {
                    lemma_links_reach(s, i + 1, q, w);
                },
            }
        } else {
            lemma_links_reach(s, i + 1, q, w);
        }
    }
}

/// No link is lost: whatever comes before it (an unfinished or invalid
/// `[[`, other links, any text), a well-formed `[[t]]` that is not escaped
/// is among the links of the body, with its raw span and its byte offset.
pub proof fn law_every_link_is_found(p: Seq<char>, t: Seq<char>)
    requires
        forall|k: int| 0 <= k < t.len() ==> t[k] != '\n' && t[k] != '[' && t[k] != ']',
        link_at(p + link_text(t), p.len() as int, (p.len() + 2 + t.len()) as int) is Some,
        !escaped_at(p + link_text(t), p.len() as int),
    ensures
        exists|k: int|
            0 <= k < wikilinks(p + link_text(t)).len() && (#[trigger] wikilinks(p + link_text(t))[k]).raw
                == link_text(t) && wikilinks(p + link_text(t))[k].start == encode_utf8(p).len(),
{
    let s = p + link_text(t);
    let q = p.len() as int;
    let c = q + 2 + t.len();
    assert(s[q] == '[' && s[q + 1] == '[');
    assert(s[c] == ']' && s[c + 1] == ']');
    assert forall|k: int| q + 2 <= k < c implies s[k] != '\n' && s[k] != '[' && s[k] != ']' by {
        assert(s[k] == t[k - q - 2]);
    }
    lemma_find_close_body(s, q + 2, c);
    let w = link_at(s, q, c)->0;
    assert(links_from(s, q) == seq![w] + links_from(s, c + 2));
    assert(links_from(s, q)[0] == w);
    lemma_links_reach(s, 0, q, w);
    let k = choose|k: int| 0 <= k < wikilinks(s).len() && wikilinks(s)[k] == w;
    assert(s.subrange(q, c + 2) =~= link_text(t));
    assert(s.take(q) =~= p);
}

/// A body without any `[` holds no links.
pub proof fn law_no_bracket_no_links(s: Seq<char>)
    requires
        forall|k: int| 0 <= k < s.len() ==> s[k] != '[',
    ensures
        wikilinks(s).len() == 0,
{
    lemma_no_open_bracket_no_links(s, 0);
}

} // verus!
