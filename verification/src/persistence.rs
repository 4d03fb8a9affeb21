//! Serialization of a cache to line-oriented text, and the rebuilding
//! of a cache from such text.
//!
//! Each entry is written as `key:value` on a line of its own, oldest
//! entry first, most recent last; the lines are joined by single line
//! breaks, with no trailing break.  Reading splits the text at line
//! endings (`\n`, or `\r\n` taken as one ending), keeps only the last
//! `size` lines when there are more than `size`, splits each kept line
//! at its first `:`, decodes key and value, and feeds the pair through
//! the cache's normal `put`, in line order.  Lines without a `:`, and
//! lines whose key or value fails to decode, are skipped; a skipped
//! line advances no rank.
//!
//! The format has no escaping: a key must not contain `:` or a line
//! break, and a value must not contain a line break, or the text of the
//! cache will not read back as it was written.  Under that constraint
//! `lemma_write_read_round_trip` proves that writing and re-reading a
//! cache reproduces its entries in their recency order, renumbered from
//! rank 1.

use vstd::prelude::*;

use crate::cache::{Cache, CacheKey, CacheTrait, EntryModel, has_key, idx_of, put_model, wf_entries};
use crate::codec::{TextCodec, chars_to_string, str_to_chars};

verus! {

/// The position of the first occurrence of `c` in `t`, or `-1` when `c`
/// does not occur.
pub open spec fn find_char(t: Seq<char>, c: char) -> int
    decreases t.len(),
{
    if t.len() == 0 {
        -1
    } else if t[0] == c {
        0
    } else {
        let r = find_char(t.drop_first(), c);
        if r < 0 {
            -1
        } else {
            r + 1
        }
    }
}

/// What `find_char` returns: either `-1` and `c` does not occur, or the
/// position of an occurrence before which `c` does not occur.
pub proof fn lemma_find_char_props(t: Seq<char>, c: char)
    ensures
        ({
            let r = find_char(t, c);
            if r == -1 {
                forall|j: int| 0 <= j < t.len() ==> t[j] != c
            } else {
                &&& 0 <= r < t.len()
                &&& t[r] == c
                &&& forall|j: int| 0 <= j < r ==> t[j] != c
            }
        }),
    decreases t.len(),
{
    if t.len() == 0 {
    } else if t[0] == c {
    } else {
        lemma_find_char_props(t.drop_first(), c);
        let u = t.drop_first();
        let r = find_char(u, c);
        if r == -1 {
            assert forall|j: int| 0 <= j < t.len() implies t[j] != c by {
                if j > 0 {
                    assert(t[j] == u[j - 1]);
                }
            }
        } else {
            assert(t[r + 1] == u[r]);
            assert forall|j: int| 0 <= j < r + 1 implies t[j] != c by {
                if j > 0 {
                    assert(t[j] == u[j - 1]);
                }
            }
        }
    }
}

/// A split segment with a carriage return before the line break
/// removed: `\r\n` counts as one line ending.
pub open spec fn strip_cr(p: Seq<char>) -> Seq<char> {
    if p.len() > 0 && p.last() == '\r' {
        p.drop_last()
    } else {
        p
    }
}

/// The lines of `t`: the segments between line endings (`\n` or
/// `\r\n`), except that a final empty segment (after a trailing line
/// ending) does not count as a line.  A final segment without a line
/// ending keeps any `\r` it ends with.
pub open spec fn split_lines(t: Seq<char>) -> Seq<Seq<char>>
    decreases t.len(),
{
    if t.len() == 0 {
        Seq::empty()
    } else {
        let r = find_char(t, '\n');
        if 0 <= r < t.len() {
            seq![strip_cr(t.subrange(0, r))] + split_lines(t.subrange(r + 1, t.len() as int))
        } else {
            seq![t]
        }
    }
}

/// A text without line breaks is its own single line.
proof fn lemma_split_single(p: Seq<char>)
    requires
        !p.contains('\n'),
        p.len() > 0,
    ensures
        split_lines(p) == seq![p],
{
    lemma_find_char_props(p, '\n');
    let r = find_char(p, '\n');
    if r != -1 {
        assert(p.contains('\n'));
    }
}

/// Splitting off the first line: a break after a break-free prefix `p`
/// separates `p` from the lines of the rest.
proof fn lemma_split_prefix(p: Seq<char>, rest: Seq<char>)
    requires
        !p.contains('\n'),
    ensures
        split_lines(p + seq!['\n'] + rest) == seq![strip_cr(p)] + split_lines(rest),
{
    let t = p + seq!['\n'] + rest;
    lemma_find_char_props(t, '\n');
    let r = find_char(t, '\n');
    assert(t[p.len() as int] == '\n');
    if r == -1 {
        assert(false);
    }
    if r < p.len() {
        assert(t[r] == p[r]);
        assert(p.contains('\n'));
        assert(false);
    }
    if r > p.len() {
        assert(false);
    }
    assert(r == p.len());
    assert(t.subrange(0, r) =~= p);
    assert(t.subrange(r + 1, t.len() as int) =~= rest);
    assert(split_lines(t) == seq![strip_cr(p)] + split_lines(rest));
}

/// The line that stands for the entry `e`: encoded key, `:`, encoded
/// value.
pub open spec fn line_of<K: TextCodec, V: TextCodec>(e: EntryModel<K::V, V::V>) -> Seq<char> {
    K::encode_spec(e.key) + seq![':'] + V::encode_spec(e.value)
}

/// The full text that stands for the entries `s`: one line per entry
/// in sequence order, joined by single line breaks, with no trailing
/// break.
pub open spec fn render_entries<K: TextCodec, V: TextCodec>(s: Seq<EntryModel<K::V, V::V>>) -> Seq<
    char,
>
    decreases s.len(),
{
    if s.len() == 0 {
        Seq::empty()
    } else if s.len() == 1 {
        line_of::<K, V>(s[0])
    } else {
        line_of::<K, V>(s[0]) + seq!['\n'] + render_entries::<K, V>(s.drop_first())
    }
}

/// Rendering one more entry appends a line break (unless the text was
/// empty) and the entry's line.
proof fn lemma_render_snoc<K: TextCodec, V: TextCodec>(
    s: Seq<EntryModel<K::V, V::V>>,
    e: EntryModel<K::V, V::V>,
)
    ensures
        render_entries::<K, V>(s.push(e)) == if s.len() == 0 {
            line_of::<K, V>(e)
        } else {
            render_entries::<K, V>(s) + seq!['\n'] + line_of::<K, V>(e)
        },
    decreases s.len(),
{
    let s1 = s.push(e);
    if s.len() == 0 {
        assert(s1[0] == e);
    } else if s.len() == 1 {
        assert(s1[0] == s[0]);
        assert(s1.drop_first() =~= seq![e]);
        assert(render_entries::<K, V>(s1.drop_first()) == line_of::<K, V>(e));
        assert(render_entries::<K, V>(s1) =~= render_entries::<K, V>(s) + seq!['\n']
            + line_of::<K, V>(e));
    } else {
        assert(s1.drop_first() =~= s.drop_first().push(e));
        lemma_render_snoc::<K, V>(s.drop_first(), e);
        assert(s1[0] == s[0]);
        assert(render_entries::<K, V>(s1) =~= render_entries::<K, V>(s) + seq!['\n']
            + line_of::<K, V>(e));
    }
}

/// The pair a line stands for: the text before its first `:` must
/// decode as a key and the text after it as a value; a line without a
/// `:` stands for nothing.
pub open spec fn parse_line<K: TextCodec, V: TextCodec>(l: Seq<char>) -> Option<(K::V, V::V)> {
    let r = find_char(l, ':');
    if r == -1 {
        None
    } else {
        match (K::decode_spec(l.subrange(0, r)), V::decode_spec(
            l.subrange(r + 1, l.len() as int),
        )) {
            (Some(k), Some(v)) => Some((k, v)),
            _ => None,
        }
    }
}

/// The cache state (entries and rank counter) after feeding the parsed
/// lines `ls`, in order, through `put` on an empty cache of capacity
/// `cap`; lines that stand for nothing are skipped.
pub open spec fn parse_fold<K: TextCodec, V: TextCodec>(ls: Seq<Seq<char>>, cap: nat) -> (Seq<
    EntryModel<K::V, V::V>,
>, nat)
    decreases ls.len(),
{
    if ls.len() == 0 {
        (Seq::empty(), 0)
    } else {
        let (m, nr) = parse_fold::<K, V>(ls.drop_last(), cap);
        match parse_line::<K, V>(ls.last()) {
            Some(p) => (put_model(m, cap, nr, p.0, p.1), (nr + 1) as nat),
            None => (m, nr),
        }
    }
}

/// The lines that reading keeps: all of them, or only the last `size`
/// when there are more.
pub open spec fn kept_lines(size: nat, ls: Seq<Seq<char>>) -> Seq<Seq<char>> {
    if ls.len() > size {
        ls.subrange(ls.len() - size, ls.len() as int)
    } else {
        ls
    }
}

/// The entries of the cache that reading the text `t` with capacity
/// `size` produces.
pub open spec fn parse_model<K: TextCodec, V: TextCodec>(size: nat, t: Seq<char>) -> Seq<
    EntryModel<K::V, V::V>,
> {
    parse_fold::<K, V>(kept_lines(size, split_lines(t)), size).0
}

/// The rank counter of that cache: one step per kept line that stood
/// for a pair.
pub open spec fn parse_rank<K: TextCodec, V: TextCodec>(size: nat, t: Seq<char>) -> nat {
    parse_fold::<K, V>(kept_lines(size, split_lines(t)), size).1
}

/// The position of the first `:` of `line`, if it has one.
fn find_colon(line: &Vec<char>) -> (r: Option<usize>)
    ensures
        match r {
            Some(i) => i < line@.len() && find_char(line@, ':') == i as int,
            None => find_char(line@, ':') == -1,
        },
{
    let n = line.len();
    let mut i: usize = 0;
    while i < n
        invariant
            n == line@.len(),
            i <= n,
            forall|j: int| 0 <= j < i ==> line@[j] != ':',
        decreases n - i,
    {
        if line[i] == ':' {
            proof {
                lemma_find_char_props(line@, ':');
                let r = find_char(line@, ':');
                if r == -1 {
                    assert(line@[i as int] == ':');
                    assert(false);
                } else if r < i {
                    assert(line@[r] != ':');
                    assert(false);
                } else if r > i {
                    assert(line@[i as int] != ':');
                    assert(false);
                }
            }
            return Some(i);
        }
        i = i + 1;
    }
    proof {
        lemma_find_char_props(line@, ':');
        let r = find_char(line@, ':');
        if r != -1 {
            assert(line@[r] != ':');
            assert(false);
        }
    }
    None
}

/// A copy of the characters of `v` from `from` (inclusive) to `to`
/// (exclusive).
fn subvec(v: &Vec<char>, from: usize, to: usize) -> (r: Vec<char>)
    requires
        from <= to <= v@.len(),
    ensures
        r@ == v@.subrange(from as int, to as int),
{
    let mut r: Vec<char> = Vec::new();
    let mut j: usize = from;
    while j < to
        invariant
            from <= j <= to <= v@.len(),
            r@ == v@.subrange(from as int, j as int),
        decreases to - j,
    {
        r.push(v[j]);
        j = j + 1;
        proof {
            assert(v@.subrange(from as int, j as int) =~= v@.subrange(
                from as int,
                j - 1,
            ).push(v@[j - 1]));
        }
    }
    r
}

/// The lines of `t`, as vectors of characters.
fn split_lines_exec(t: &Vec<char>) -> (r: Vec<Vec<char>>)
    ensures
        r.deep_view() == split_lines(t@),
{
    let mut out: Vec<Vec<char>> = Vec::new();
    let mut cur: Vec<char> = Vec::new();
    let mut i: usize = 0;
    proof {
        assert(cur@ + t@.skip(0) =~= t@);
    }
    while i < t.len()
        invariant
            i <= t@.len(),
            !cur@.contains('\n'),
            split_lines(t@) == out.deep_view() + split_lines(cur@ + t@.skip(i as int)),
        decreases t@.len() - i,
    {
        let ghost cur0 = cur@;
        let ghost out0 = out.deep_view();
        let ghost rest0 = t@.skip(i as int);
        let c = t[i];
        if c == '\n' {
            if cur.len() > 0 && cur[cur.len() - 1] == '\r' {
                let _ = cur.pop();
            }
            proof {
                assert(cur@ == strip_cr(cur0));
            }
            out.push(cur);
            cur = Vec::new();
            proof {
                assert(out.deep_view() =~~= out0.push(strip_cr(cur0)));
                assert(cur0 + rest0 =~= cur0 + seq!['\n'] + t@.skip(i + 1));
                lemma_split_prefix(cur0, t@.skip(i + 1));
                assert(cur@ + t@.skip(i + 1) =~= t@.skip(i + 1));
                assert(out0 + (seq![strip_cr(cur0)] + split_lines(t@.skip(i + 1))) =~= out0.push(
                    strip_cr(cur0),
                ) + split_lines(t@.skip(i + 1)));
            }
        } else {
            cur.push(c);
            proof {
                assert(cur@ + t@.skip(i + 1) =~= cur0 + rest0);
            }
        }
        i = i + 1;
    }
    proof {
        assert(cur@ + t@.skip(t@.len() as int) =~= cur@);
    }
    if cur.len() > 0 {
        let ghost curf = cur@;
        let ghost out0 = out.deep_view();
        proof {
            lemma_split_single(curf);
        }
        out.push(cur);
        proof {
            assert(out.deep_view() =~~= out0.push(curf));
            assert(out0 + seq![curf] =~= out0.push(curf));
        }
    } else {
        proof {
            assert(split_lines(cur@) =~= Seq::<Seq<char>>::empty());
            assert(out.deep_view() + Seq::<Seq<char>>::empty() =~= out.deep_view());
        }
    }
    out
}

/// Writing a cache's contents as the text of a file, and reading such
/// text back into a cache.
pub trait Persistence<K: CacheKey + TextCodec, V: DeepView + TextCodec> {
    /// Builds a cache of capacity `size` from the text `content`: the
    /// last `size` lines (all of them, if there are no more than
    /// `size`) are decoded and fed through `put` in order, skipping
    /// lines without a `:` and lines that fail to decode.
    fn read_content(size: usize, content: &str) -> (r: Cache<K, V>)
        requires
            size >= 1,
        ensures
            r.inv(),
            r.cap() == size as nat,
            r.model() == parse_model::<K, V>(size as nat, content@),
            r.next_rank() == parse_rank::<K, V>(size as nat, content@),
    ;

    /// The text that stands for `cache`: one `key:value` line per
    /// entry, oldest first, joined by single line breaks with no
    /// trailing break; an empty cache gives the empty text.
    fn write_content(cache: &Cache<K, V>) -> (r: String)
        requires
            cache.inv(),
        ensures
            r@ == render_entries::<K, V>(cache.model()),
    ;
}

/// Line-oriented text persistence of a cache.  The functions here
/// compute and consume entire file contents; tying them to an actual
/// file is the caller's affair.
pub struct FilePersistence;

impl<K: CacheKey + TextCodec, V: DeepView + TextCodec> Persistence<K, V> for FilePersistence {
    fn read_content(size: usize, content: &str) -> (r: Cache<K, V>) {
        let cs = str_to_chars(content);
        let lines = split_lines_exec(&cs);
        let ghost ls = lines.deep_view();
        let start: usize = if lines.len() > size {
            lines.len() - size
        } else {
            0
        };
        proof {
            assert(kept_lines(size as nat, ls) =~= ls.skip(start as int));
        }
        let mut cache: Cache<K, V> = <Cache<K, V> as CacheTrait<K, V>>::new(size);
        let mut j: usize = start;
        proof {
            assert(ls.subrange(start as int, start as int) =~= Seq::<Seq<char>>::empty());
        }
        while j < lines.len()
            invariant
                size >= 1,
                cache.inv(),
                cache.cap() == size as nat,
                ls == lines.deep_view(),
                lines@.len() == ls.len(),
                start <= j <= ls.len(),
                ls.skip(start as int) == kept_lines(size as nat, ls),
                cache.model() == parse_fold::<K, V>(
                    ls.subrange(start as int, j as int),
                    size as nat,
                ).0,
                cache.next_rank() == parse_fold::<K, V>(
                    ls.subrange(start as int, j as int),
                    size as nat,
                ).1,
                cache.next_rank() <= j - start,
            decreases lines@.len() - j,
        {
            let ghost pre = ls.subrange(start as int, j as int);
            let ghost cur = ls.subrange(start as int, j + 1);
            proof {
                assert(cur.drop_last() =~= pre);
                assert(cur.last() == ls[j as int]);
            }
            let line = &lines[j];
            proof {
                assert(line@ =~= ls[j as int]);
            }
            match find_colon(line) {
                Some(ci) => {
                    let kv = subvec(line, 0, ci);
                    let vv = subvec(line, ci + 1, line.len());
                    let ks = chars_to_string(&kv);
                    let vs = chars_to_string(&vv);
                    match (K::from_text(ks.as_str()), V::from_text(vs.as_str())) {
                        (Some(k), Some(v)) => {
                            proof {
                                assert(parse_line::<K, V>(ls[j as int]) == Some(
                                    (k.deep_view(), v.deep_view()),
                                ));
                            }
                            let _ = cache.put(k, v);
                        },
                        _ => {
                            proof {
                                assert(parse_line::<K, V>(ls[j as int]) is None);
                            }
                        },
                    }
                },
                None => {
                    proof {
                        assert(parse_line::<K, V>(ls[j as int]) is None);
                    }
                },
            }
            j = j + 1;
        }
        proof {
            assert(ls.subrange(start as int, ls.len() as int) =~= ls.skip(start as int));
        }
        cache
    }

    fn write_content(cache: &Cache<K, V>) -> (r: String) {
        let ghost m = cache.model();
        let n = cache.len();
        let mut out: Vec<char> = Vec::new();
        let mut i: usize = 0;
        proof {
            assert(m.take(0) =~= Seq::<EntryModel<K::V, V::V>>::empty());
        }
        while i < n
            invariant
                cache.inv(),
                m == cache.model(),
                n == m.len(),
                i <= n,
                out@ == render_entries::<K, V>(m.take(i as int)),
            decreases n - i,
        {
            let ghost out0 = out@;
            let (k, el) = cache.entry_at(i);
            if i > 0 {
                out.push('\n');
            }
            let kt = k.to_text();
            let vt = el.value.to_text();
            let mut kc = str_to_chars(kt.as_str());
            let mut vc = str_to_chars(vt.as_str());
            out.append(&mut kc);
            out.push(':');
            out.append(&mut vc);
            proof {
                assert(m.take(i + 1) =~= m.take(i as int).push(m[i as int]));
                lemma_render_snoc::<K, V>(m.take(i as int), m[i as int]);
                if i == 0 {
                    assert(out@ =~= line_of::<K, V>(m[i as int]));
                } else {
                    assert(out@ =~= render_entries::<K, V>(m.take(i as int)) + seq!['\n']
                        + line_of::<K, V>(m[i as int]));
                }
            }
            i = i + 1;
        }
        proof {
            assert(m.take(n as int) =~= m);
        }
        chars_to_string(&out)
    }
}

/// The lines that stand for the entries `s`, one per entry, in order.
pub open spec fn lines_of<K: TextCodec, V: TextCodec>(s: Seq<EntryModel<K::V, V::V>>) -> Seq<
    Seq<char>,
> {
    Seq::new(s.len(), |i: int| line_of::<K, V>(s[i]))
}

/// The entries `s` with their ranks renumbered to `1..=s.len()` in
/// sequence order.
pub open spec fn renumber<KV, VV>(s: Seq<EntryModel<KV, VV>>) -> Seq<EntryModel<KV, VV>> {
    Seq::new(
        s.len(),
        |i: int| EntryModel { key: s[i].key, rank: (i + 1) as nat, value: s[i].value },
    )
}

/// A line holds no line break when neither its key text nor its value
/// text does.
proof fn lemma_line_nl_free<K: TextCodec, V: TextCodec>(e: EntryModel<K::V, V::V>)
    requires
        !K::encode_spec(e.key).contains('\n'),
        !V::encode_spec(e.value).contains('\n'),
    ensures
        !line_of::<K, V>(e).contains('\n'),
{
    let kt = K::encode_spec(e.key);
    let vt = V::encode_spec(e.value);
    let l = line_of::<K, V>(e);
    if l.contains('\n') {
        let i = choose|i: int| 0 <= i < l.len() && l[i] == '\n';
        if i < kt.len() {
            assert(kt[i] == '\n');
            assert(kt.contains('\n'));
        } else if i == kt.len() {
            assert(l[i] == ':');
        } else {
            assert(vt[i - kt.len() - 1] == '\n');
            assert(vt.contains('\n'));
        }
    }
}

/// Splitting the rendering of entries whose lines hold no line break,
/// and (but for the last, which no line ending follows) do not end
/// with a carriage return, recovers exactly those lines.
proof fn lemma_split_render<K: TextCodec, V: TextCodec>(s: Seq<EntryModel<K::V, V::V>>)
    requires
        forall|i: int| 0 <= i < s.len() ==> !(#[trigger] line_of::<K, V>(s[i])).contains('\n'),
        forall|i: int|
            0 <= i < s.len() - 1 ==> strip_cr(#[trigger] line_of::<K, V>(s[i])) == line_of::<
                K,
                V,
            >(s[i]),
    ensures
        split_lines(render_entries::<K, V>(s)) == lines_of::<K, V>(s),
    decreases s.len(),
{
    if s.len() == 0 {
        assert(lines_of::<K, V>(s) =~= Seq::<Seq<char>>::empty());
    } else if s.len() == 1 {
        lemma_split_single(line_of::<K, V>(s[0]));
        assert(lines_of::<K, V>(s) =~= seq![line_of::<K, V>(s[0])]);
    } else {
        let rest = s.drop_first();
        assert forall|i: int| 0 <= i < rest.len() implies !(#[trigger] line_of::<K, V>(
            rest[i],
        )).contains('\n') by {
            assert(rest[i] == s[i + 1]);
        }
        assert forall|i: int| 0 <= i < rest.len() - 1 implies strip_cr(
            #[trigger] line_of::<K, V>(rest[i]),
        ) == line_of::<K, V>(rest[i]) by {
            assert(rest[i] == s[i + 1]);
        }
        lemma_split_render::<K, V>(rest);
        lemma_split_prefix(line_of::<K, V>(s[0]), render_entries::<K, V>(rest));
        assert(line_of::<K, V>(s[0]) + seq!['\n'] + render_entries::<K, V>(rest)
            == render_entries::<K, V>(s));
        assert(lines_of::<K, V>(s) =~= seq![line_of::<K, V>(s[0])] + lines_of::<K, V>(rest));
    }
}

/// The line that stands for an entry whose key text holds no `:`
/// parses back to exactly that entry's key and value.
proof fn lemma_parse_line_of<K: TextCodec, V: TextCodec>(e: EntryModel<K::V, V::V>)
    requires
        !K::encode_spec(e.key).contains(':'),
    ensures
        parse_line::<K, V>(line_of::<K, V>(e)) == Some((e.key, e.value)),
{
    let kt = K::encode_spec(e.key);
    let vt = V::encode_spec(e.value);
    let l = line_of::<K, V>(e);
    let kl = kt.len() as int;
    lemma_find_char_props(l, ':');
    let r = find_char(l, ':');
    assert(l[kl] == ':');
    if r == -1 {
        assert(false);
    } else if r < kl {
        assert(kt[r] == ':');
        assert(kt.contains(':'));
        assert(false);
    } else if r > kl {
        assert(l[kl] != ':');
        assert(false);
    }
    assert(r == kl);
    assert(l.subrange(0, kl) =~= kt);
    assert(l.subrange(kl + 1, l.len() as int) =~= vt);
    K::lemma_codec_round_trip(e.key);
    V::lemma_codec_round_trip(e.value);
}

/// Feeding the lines of entries with pairwise distinct keys, no more
/// of them than the capacity, through the `put` fold fills an empty
/// cache with exactly those entries, renumbered from rank 1.
proof fn lemma_parse_fold_distinct<K: TextCodec, V: TextCodec>(
    s: Seq<EntryModel<K::V, V::V>>,
    size: nat,
)
    requires
        s.len() <= size,
        forall|i: int, j: int|
            0 <= i < s.len() && 0 <= j < s.len() && i != j ==> s[i].key != s[j].key,
        forall|i: int| 0 <= i < s.len() ==> !(#[trigger] K::encode_spec(s[i].key)).contains(':'),
    ensures
        parse_fold::<K, V>(lines_of::<K, V>(s), size) == (renumber(s), s.len() as nat),
    decreases s.len(),
{
    if s.len() == 0 {
        assert(lines_of::<K, V>(s) =~= Seq::<Seq<char>>::empty());
        assert(renumber(s) =~= Seq::<EntryModel<K::V, V::V>>::empty());
    } else {
        let s0 = s.drop_last();
        let e = s.last();
        assert forall|i: int| 0 <= i < s0.len() implies !(#[trigger] K::encode_spec(
            s0[i].key,
        )).contains(':') by {
            assert(s0[i] == s[i]);
        }
        lemma_parse_fold_distinct::<K, V>(s0, size);
        assert(lines_of::<K, V>(s).drop_last() =~= lines_of::<K, V>(s0));
        assert(lines_of::<K, V>(s).last() == line_of::<K, V>(e));
        lemma_parse_line_of::<K, V>(e);
        let m0 = renumber(s0);
        if has_key(m0, e.key) {
            let i = idx_of(m0, e.key);
            assert(0 <= i < m0.len() && m0[i].key == e.key);
            assert(s[i].key == s[s.len() - 1].key);
            assert(false);
        }
        assert(m0.len() < size);
        let m1 = put_model(m0, size, s0.len() as nat, e.key, e.value);
        assert(m1 == m0.push(
            EntryModel { key: e.key, rank: (s0.len() + 1) as nat, value: e.value },
        ));
        assert(m1 =~= renumber(s));
        assert(parse_fold::<K, V>(lines_of::<K, V>(s), size) == (renumber(s), s.len() as nat));
    }
}

/// Round trip: the text written for a well-formed cache, read back
/// with a capacity no smaller than its number of entries, reproduces
/// the same keys and values in the same recency order, with the ranks
/// renumbered from 1.  The keys' texts must hold neither `:` nor a
/// line break, and the values' texts no line break: the format has no
/// escaping.  A value text of any entry but the last must not end
/// with a carriage return either, since reading takes `\r\n` as one
/// line ending.
pub proof fn lemma_write_read_round_trip<K: TextCodec, V: TextCodec>(
    s: Seq<EntryModel<K::V, V::V>>,
    cap: nat,
    nr: nat,
    size: nat,
)
    requires
        wf_entries(s, cap, nr),
        s.len() <= size,
        1 <= size,
        forall|i: int|
            0 <= i < s.len() ==> !(#[trigger] K::encode_spec(s[i].key)).contains(':')
                && !K::encode_spec(s[i].key).contains('\n'),
        forall|i: int| 0 <= i < s.len() ==> !(#[trigger] V::encode_spec(s[i].value)).contains(
            '\n',
        ),
        forall|i: int|
            0 <= i < s.len() - 1 ==> ((#[trigger] V::encode_spec(s[i].value)).len() == 0
                || V::encode_spec(s[i].value).last() != '\r'),
    ensures
        parse_model::<K, V>(size, render_entries::<K, V>(s)) == renumber(s),
        parse_rank::<K, V>(size, render_entries::<K, V>(s)) == s.len(),
        renumber(s).len() == s.len(),
        forall|i: int|
            0 <= i < s.len() ==> #[trigger] renumber(s)[i] == (EntryModel {
                key: s[i].key,
                rank: (i + 1) as nat,
                value: s[i].value,
            }),
{
    assert forall|i: int| 0 <= i < s.len() implies !(#[trigger] line_of::<K, V>(
        s[i],
    )).contains('\n') by {
        lemma_line_nl_free::<K, V>(s[i]);
    }
    assert forall|i: int| 0 <= i < s.len() - 1 implies strip_cr(#[trigger] line_of::<K, V>(
        s[i],
    )) == line_of::<K, V>(s[i]) by {
        let kt = K::encode_spec(s[i].key);
        let vt = V::encode_spec(s[i].value);
        let l = line_of::<K, V>(s[i]);
        if vt.len() == 0 {
            assert(l.last() == ':');
        } else {
            assert(l.last() == vt.last());
        }
    }
    lemma_split_render::<K, V>(s);
    assert(kept_lines(size, lines_of::<K, V>(s)) == lines_of::<K, V>(s));
    lemma_parse_fold_distinct::<K, V>(s, size);
}

} // verus!
