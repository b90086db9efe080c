//! Parsing of captured command output: newline-delimited identifier lists
//! and tab-delimited property tables, over a frozen text snapshot.

use vstd::hash_map::StringHashMap;
use vstd::prelude::*;

verus! {

/// The whitespace characters that form the envelope trimmed off captured
/// command output: the Unicode `White_Space` set, the characters that
/// `char::is_whitespace` recognizes.
pub open spec fn is_ws(c: char) -> bool {
    c == '\u{0009}' || c == '\u{000A}' || c == '\u{000B}' || c == '\u{000C}' || c == '\u{000D}'
        || c == ' ' || c == '\u{0085}' || c == '\u{00A0}' || c == '\u{1680}' || c == '\u{2000}'
        || c == '\u{2001}' || c == '\u{2002}' || c == '\u{2003}' || c == '\u{2004}' || c
        == '\u{2005}' || c == '\u{2006}' || c == '\u{2007}' || c == '\u{2008}' || c == '\u{2009}'
        || c == '\u{200A}' || c == '\u{2028}' || c == '\u{2029}' || c == '\u{202F}' || c
        == '\u{205F}' || c == '\u{3000}'
}

/// Holds when `sep` occurs nowhere in `s`.
pub open spec fn sep_free(s: Seq<char>, sep: char) -> bool {
    forall|i: int| 0 <= i < s.len() ==> s[i] != sep
}

/// The segments of `s` delimited by `sep`, in order. Splitting always yields
/// at least one segment; in particular the empty text yields one empty
/// segment.
pub open spec fn split_on(s: Seq<char>, sep: char) -> Seq<Seq<char>>
    decreases s.len(),
{
    if s.len() == 0 {
        seq![Seq::<char>::empty()]
    } else if s[0] == sep {
        seq![Seq::<char>::empty()] + split_on(s.drop_first(), sep)
    } else {
        let rest = split_on(s.drop_first(), sep);
        seq![seq![s[0]] + rest[0]] + rest.drop_first()
    }
}

/// Splitting yields at least one segment.
pub proof fn lemma_split_on_len(s: Seq<char>, sep: char)
    ensures
        split_on(s, sep).len() >= 1,
    decreases s.len(),
{
    if s.len() == 0 {
    } else {
        lemma_split_on_len(s.drop_first(), sep);
    }
}

/// Characterizes `split_on` by the first occurrence of the separator: if the
/// first `i` characters of `s` are separator-free, then either `i` is the
/// whole of `s` and `s` is its own single segment, or `s[i]` is the separator,
/// the first segment is `s.take(i)`, and the rest splits on its own.
pub proof fn lemma_split_on_at(s: Seq<char>, sep: char, i: int)
    requires
        0 <= i <= s.len(),
        forall|j: int| 0 <= j < i ==> s[j] != sep,
        i < s.len() ==> s[i] == sep,
    ensures
        i == s.len() ==> split_on(s, sep) == seq![s],
        i < s.len() ==> split_on(s, sep) == seq![s.take(i)] + split_on(s.skip(i + 1), sep),
    decreases s.len(),
{
    lemma_split_on_len(s, sep);
    if s.len() == 0 {
        assert(split_on(s, sep) =~~= seq![s]);
    } else if i == 0 {
        if i < s.len() {
            assert(s[0] == sep);
            assert(s.drop_first() =~= s.skip(1));
            assert(s.take(0) =~= Seq::<char>::empty());
            assert(split_on(s, sep) =~~= seq![s.take(0)] + split_on(s.skip(1), sep));
        }
    } else {
        let t = s.drop_first();
        lemma_split_on_len(t, sep);
        assert(forall|j: int| 0 <= j < i - 1 ==> t[j] != sep);
        lemma_split_on_at(t, sep, i - 1);
        let rest = split_on(t, sep);
        if i == s.len() {
            assert(rest == seq![t]);
            assert(seq![s[0]] + t =~= s);
            assert(split_on(s, sep) =~~= seq![s]);
        } else {
            assert(rest == seq![t.take(i - 1)] + split_on(t.skip(i), sep));
            assert(rest[0] == t.take(i - 1));
            assert(seq![s[0]] + t.take(i - 1) =~= s.take(i));
            assert(rest.drop_first() =~~= split_on(t.skip(i), sep));
            assert(t.skip(i) =~= s.skip(i + 1));
            assert(split_on(s, sep) =~~= seq![s.take(i)] + split_on(s.skip(i + 1), sep));
        }
    }
}

/// `s` with leading whitespace removed.
pub open spec fn trim_front_spec(s: Seq<char>) -> Seq<char>
    decreases s.len(),
{
    if s.len() > 0 && is_ws(s[0]) {
        trim_front_spec(s.drop_first())
    } else {
        s
    }
}

/// `s` with trailing whitespace removed.
pub open spec fn trim_back_spec(s: Seq<char>) -> Seq<char>
    decreases s.len(),
{
    if s.len() > 0 && is_ws(s.last()) {
        trim_back_spec(s.drop_last())
    } else {
        s
    }
}

/// `s` with its whitespace envelope removed.
pub open spec fn trim_spec(s: Seq<char>) -> Seq<char> {
    trim_back_spec(trim_front_spec(s))
}

/// What one byte sequence decodes to as UTF-8 when invalid sequences are
/// replaced rather than rejected. The decoding is a function of the bytes
/// alone; it is carried out by `String::from_utf8_lossy`.
pub uninterp spec fn decoded_of(bytes: Seq<u8>) -> Seq<char>;

/// Relies on `String::from_utf8_lossy` (with `Cow::into_owned` to take the
/// result): it decodes the bytes as UTF-8, replacing invalid sequences with
/// U+FFFD, and passes valid UTF-8 — so in particular plain ASCII — through
/// unchanged.
#[verifier::external_body]
pub(crate) fn decode_lossy(bytes: &Vec<u8>) -> (r: String)
    ensures
        r@ == decoded_of(bytes@),
        (forall|i: int| 0 <= i < bytes@.len() ==> bytes@[i] < 128) ==> r@ == Seq::new(
            bytes@.len(),
            |i: int| bytes@[i] as char,
        ),
{
    String::from_utf8_lossy(bytes).into_owned()
}

/// Executable test for `is_ws`.
pub fn is_ws_char(c: char) -> (r: bool)
    ensures
        r == is_ws(c),
{
    c == '\u{0009}' || c == '\u{000A}' || c == '\u{000B}' || c == '\u{000C}' || c == '\u{000D}'
        || c == ' ' || c == '\u{0085}' || c == '\u{00A0}' || c == '\u{1680}' || c == '\u{2000}'
        || c == '\u{2001}' || c == '\u{2002}' || c == '\u{2003}' || c == '\u{2004}' || c
        == '\u{2005}' || c == '\u{2006}' || c == '\u{2007}' || c == '\u{2008}' || c == '\u{2009}'
        || c == '\u{200A}' || c == '\u{2028}' || c == '\u{2029}' || c == '\u{202F}' || c
        == '\u{205F}' || c == '\u{3000}'
}

/// Remove the whitespace envelope of `s`: the executable form of `trim_spec`.
pub fn trim_str(s: &str) -> (r: String)
    ensures
        r@ == trim_spec(s@),
{
    let n: usize = s.unicode_len();
    let mut start: usize = 0;
    proof {
        assert(s@.skip(0) =~= s@);
    }
    while start < n && is_ws_char(s.get_char(start))
        invariant
            start <= n,
            n == s@.len(),
            trim_front_spec(s@) == trim_front_spec(s@.skip(start as int)),
        decreases n - start,
    {
        proof {
            let t = s@.skip(start as int);
            assert(t.len() > 0 && is_ws(t[0]));
            assert(t.drop_first() =~= s@.skip(start as int + 1));
        }
        start = start + 1;
    }
    proof {
        let t = s@.skip(start as int);
        assert(trim_front_spec(t) == t);
        assert(t =~= s@.subrange(start as int, n as int));
    }
    let mut end: usize = n;
    while end > start && is_ws_char(s.get_char(end - 1))
        invariant
            start <= end <= n,
            n == s@.len(),
            trim_front_spec(s@) == s@.subrange(start as int, n as int),
            trim_back_spec(s@.subrange(start as int, n as int)) == trim_back_spec(
                s@.subrange(start as int, end as int),
            ),
        decreases end,
    {
        proof {
            let u = s@.subrange(start as int, end as int);
            assert(u.len() > 0 && is_ws(u.last()));
            assert(u.drop_last() =~= s@.subrange(start as int, end as int - 1));
        }
        end = end - 1;
    }
    let r: String = s.substring_char(start, end).to_owned();
    proof {
        let u = s@.subrange(start as int, end as int);
        assert(trim_back_spec(u) == u);
    }
    r
}

/// Split `s` on `sep` into owned segments: the executable form of `split_on`.
pub fn split_str(s: &str, sep: char) -> (r: Vec<String>)
    ensures
        r.deep_view() == split_on(s@, sep),
{
    let n: usize = s.unicode_len();
    let mut r: Vec<String> = Vec::new();
    let mut start: usize = 0;
    let mut i: usize = 0;
    proof {
        assert(s@.skip(0) =~= s@);
        assert(r.deep_view() + split_on(s@, sep) =~~= split_on(s@, sep));
    }
    while i < n
        invariant
            start <= i <= n,
            n == s@.len(),
            forall|j: int| start <= j < i ==> s@[j] != sep,
            split_on(s@, sep) == r.deep_view() + split_on(s@.skip(start as int), sep),
        decreases n - i,
    {
        let c = s.get_char(i);
        if c == sep {
            let seg: String = s.substring_char(start, i).to_owned();
            let ghost old_segs = r.deep_view();
            let ghost lo: int = start as int;
            r.push(seg);
            proof {
                let t = s@.skip(lo);
                assert(forall|j: int| 0 <= j < i - lo ==> t[j] != sep);
                assert(t[i - lo] == sep);
                lemma_split_on_at(t, sep, i - lo);
                assert(t.take(i - lo) =~= s@.subrange(lo, i as int));
                assert(t.skip(i - lo + 1) =~= s@.skip(i as int + 1));
                assert(r.deep_view() =~~= old_segs.push(seg@));
                assert(split_on(s@, sep) == r.deep_view() + split_on(s@.skip(i as int + 1), sep)) by {
                    assert(old_segs.push(seg@) + split_on(s@.skip(i as int + 1), sep) =~~= old_segs
                        + (seq![seg@] + split_on(s@.skip(i as int + 1), sep)));
                }
            }
            start = i + 1;
        }
        i = i + 1;
    }
    let last: String = s.substring_char(start, n).to_owned();
    let ghost old_segs = r.deep_view();
    r.push(last);
    proof {
        let t = s@.skip(start as int);
        assert(forall|j: int| 0 <= j < t.len() ==> t[j] != sep);
        lemma_split_on_at(t, sep, t.len() as int);
        assert(t =~= s@.subrange(start as int, n as int));
        assert(r.deep_view() =~~= old_segs.push(last@));
        assert(r.deep_view() =~~= old_segs + seq![t]);
        assert(r.deep_view() == split_on(s@, sep));
    }
    r
}

/// The text that joins `parts` with `sep` between each pair of neighbours.
pub open spec fn join_with(parts: Seq<Seq<char>>, sep: char) -> Seq<char>
    decreases parts.len(),
{
    if parts.len() == 0 {
        Seq::empty()
    } else if parts.len() == 1 {
        parts[0]
    } else {
        parts[0] + seq![sep] + join_with(parts.drop_first(), sep)
    }
}

/// Splitting undoes joining: for at least one separator-free part, the
/// separator-joined text splits back into exactly those parts, in order.
pub proof fn lemma_split_join(parts: Seq<Seq<char>>, sep: char)
    requires
        parts.len() >= 1,
        forall|i: int| 0 <= i < parts.len() ==> sep_free(#[trigger] parts[i], sep),
    ensures
        split_on(join_with(parts, sep), sep) == parts,
    decreases parts.len(),
{
    if parts.len() == 1 {
        let p = parts[0];
        lemma_split_on_at(p, sep, p.len() as int);
        assert(seq![p] =~~= parts);
    } else {
        let s = join_with(parts, sep);
        let rest = parts.drop_first();
        assert(forall|i: int| 0 <= i < rest.len() ==> sep_free(#[trigger] rest[i], sep));
        lemma_split_join(rest, sep);
        let p = parts[0];
        let i: int = p.len() as int;
        assert(s == p + seq![sep] + join_with(rest, sep));
        assert(forall|j: int| 0 <= j < i ==> s[j] == p[j] && s[j] != sep);
        assert(s[i] == sep);
        lemma_split_on_at(s, sep, i);
        assert(s.take(i) =~= p);
        assert(s.skip(i + 1) =~= join_with(rest, sep));
        assert(seq![p] + rest =~~= parts);
    }
}

/// The joined text of parts that start and end with non-whitespace keeps
/// its first and last characters from the first and last parts.
proof fn lemma_join_ends(parts: Seq<Seq<char>>, sep: char)
    requires
        parts.len() >= 1,
        forall|i: int| 0 <= i < parts.len() ==> #[trigger] parts[i].len() > 0,
    ensures
        join_with(parts, sep).len() > 0,
        join_with(parts, sep)[0] == parts[0][0],
        join_with(parts, sep).last() == parts.last().last(),
    decreases parts.len(),
{
    if parts.len() == 1 {
    } else {
        let rest = parts.drop_first();
        lemma_join_ends(rest, sep);
        let s = join_with(parts, sep);
        assert(s == parts[0] + seq![sep] + join_with(rest, sep));
        assert(s.last() == join_with(rest, sep).last());
    }
}

/// The list parser is exact on well-formed listing output: the text that
/// joins one or more non-empty, whitespace-free identifiers with newlines
/// parses back into exactly those identifiers, in order.
pub proof fn lemma_list_parser_exact(ids: Seq<Seq<char>>)
    requires
        ids.len() >= 1,
        forall|i: int| 0 <= i < ids.len() ==> #[trigger] ids[i].len() > 0,
        forall|i: int, j: int| 0 <= i < ids.len() && 0 <= j < ids[i].len() ==> !is_ws(
            #[trigger] ids[i][j],
        ),
    ensures
        split_on(trim_spec(join_with(ids, '\n')), '\n') == ids,
{
    let s = join_with(ids, '\n');
    lemma_join_ends(ids, '\n');
    assert(ids.last() == ids[ids.len() - 1]);
    assert(!is_ws(s[0]));
    assert(!is_ws(s.last()));
    assert(trim_front_spec(s) == s);
    assert(trim_back_spec(s) == s);
    assert(forall|i: int| 0 <= i < ids.len() ==> sep_free(#[trigger] ids[i], '\n'));
    lemma_split_join(ids, '\n');
}

/// Empty captured text parses to exactly one list entry, and that entry is
/// the empty identifier — the splitting of empty text produces a single
/// empty segment, which callers must treat as "no entities".
pub proof fn lemma_empty_text_single_entry(text: Seq<char>)
    requires
        text.len() == 0,
    ensures
        split_on(trim_spec(text), '\n') == seq![Seq::<char>::empty()],
{
    assert(trim_spec(text) == text);
    assert(split_on(text, '\n') == seq![Seq::<char>::empty()]);
}

/// The entry a single property row carries: its fields are tab-separated,
/// the second is the key and the third the value; a row with fewer than
/// three columns carries no entry.
pub open spec fn row_entry(line: Seq<char>) -> Option<(Seq<char>, Seq<char>)> {
    let f = split_on(line, '\t');
    if f.len() >= 3 {
        Some((f[1], f[2]))
    } else {
        None
    }
}

/// The key→value mapping of a sequence of property rows; a key repeated in a
/// later row overwrites the earlier value, and rows without an entry are
/// skipped.
pub open spec fn props_of_lines(lines: Seq<Seq<char>>) -> Map<Seq<char>, Seq<char>>
    decreases lines.len(),
{
    if lines.len() == 0 {
        Map::empty()
    } else {
        let m = props_of_lines(lines.drop_last());
        match row_entry(lines.last()) {
            Some(kv) => m.insert(kv.0, kv.1),
            None => m,
        }
    }
}

/// The property mapping parsed from raw property-command text.
pub open spec fn props_of(text: Seq<char>) -> Map<Seq<char>, Seq<char>> {
    props_of_lines(split_on(text, '\n'))
}

/// Holds when no row after `i` carries the same key.
pub open spec fn is_last_of_key(keys: Seq<Seq<char>>, i: int) -> bool {
    forall|j: int| i < j < keys.len() ==> keys[j] != keys[i]
}

/// A full property row — `subject`, key, value and source, tab-separated —
/// carries exactly the entry `key → value`; the subject and source columns
/// are ignored.
pub proof fn lemma_row_entry_of_row(subj: Seq<char>, key: Seq<char>, val: Seq<char>, src: Seq<char>)
    requires
        sep_free(subj, '\t'),
        sep_free(key, '\t'),
        sep_free(val, '\t'),
        sep_free(src, '\t'),
    ensures
        row_entry(subj + seq!['\t'] + key + seq!['\t'] + val + seq!['\t'] + src) == Some(
            (key, val),
        ),
{
    let parts = seq![subj, key, val, src];
    let line = subj + seq!['\t'] + key + seq!['\t'] + val + seq!['\t'] + src;
    assert(forall|i: int| 0 <= i < parts.len() ==> sep_free(#[trigger] parts[i], '\t'));
    lemma_split_join(parts, '\t');
    let r3 = parts.drop_first();
    let r2 = r3.drop_first();
    let r1 = r2.drop_first();
    assert(r1 =~= seq![src]);
    assert(r2 =~= seq![val, src]);
    assert(r3 =~= seq![key, val, src]);
    assert(join_with(r1, '\t') == src);
    assert(join_with(r2, '\t') == val + seq!['\t'] + src);
    assert(join_with(r3, '\t') == key + seq!['\t'] + (val + seq!['\t'] + src));
    assert(join_with(parts, '\t') == subj + seq!['\t'] + (key + seq!['\t'] + (val + seq!['\t']
        + src)));
    assert(join_with(parts, '\t') =~= line);
    assert(split_on(line, '\t') == parts);
}

/// Property rows map each key to the value of its last row: a key stands in
/// the parsed map exactly when some row carries it, and its value is the one
/// from the last row carrying it — a repeated key resolves to the later
/// value, and no other key is touched.
pub proof fn lemma_props_last_wins(
    lines: Seq<Seq<char>>,
    keys: Seq<Seq<char>>,
    vals: Seq<Seq<char>>,
)
    requires
        lines.len() == keys.len(),
        lines.len() == vals.len(),
        forall|i: int| 0 <= i < lines.len() ==> row_entry(#[trigger] lines[i]) == Some(
            (keys[i], vals[i]),
        ),
    ensures
        forall|k: Seq<char>| #[trigger]
            props_of_lines(lines).contains_key(k) <==> exists|i: int|
                0 <= i < keys.len() && keys[i] == k,
        forall|i: int|
            0 <= i < keys.len() && is_last_of_key(keys, i) ==> props_of_lines(lines)[#[trigger] keys[i]]
                == vals[i],
    decreases lines.len(),
{
    if lines.len() == 0 {
    } else {
        let n: int = lines.len() - 1;
        let lp = lines.drop_last();
        let kp = keys.drop_last();
        let vp = vals.drop_last();
        assert(forall|i: int| 0 <= i < lp.len() ==> row_entry(#[trigger] lp[i]) == Some(
            (kp[i], vp[i]),
        ));
        lemma_props_last_wins(lp, kp, vp);
        let m = props_of_lines(lp);
        assert(lines.last() == lines[n]);
        assert(props_of_lines(lines) == m.insert(keys[n], vals[n]));
        assert forall|k: Seq<char>| #[trigger]
            props_of_lines(lines).contains_key(k) implies exists|i: int|
            0 <= i < keys.len() && keys[i] == k by {
            if k == keys[n] {
                assert(0 <= n < keys.len() && keys[n] == k);
            } else {
                assert(m.contains_key(k));
                let i: int = choose|i: int| 0 <= i < kp.len() && kp[i] == k;
                assert(0 <= i < keys.len() && keys[i] == k);
            }
        }
        assert forall|k: Seq<char>|
            (exists|i: int| 0 <= i < keys.len() && keys[i] == k) implies #[trigger] props_of_lines(
            lines,
        ).contains_key(k) by {
            let i: int = choose|i: int| 0 <= i < keys.len() && keys[i] == k;
            if i == n {
            } else {
                assert(0 <= i < kp.len() && kp[i] == k);
                assert(m.contains_key(k));
            }
        }
        assert forall|i: int|
            0 <= i < keys.len() && is_last_of_key(keys, i) implies props_of_lines(
            lines,
        )[#[trigger] keys[i]] == vals[i] by {
            if i == n {
            } else {
                assert(keys[n] != keys[i]);
                assert(forall|j: int| i < j < kp.len() ==> kp[j] != kp[i]);
                assert(is_last_of_key(kp, i));
                assert(m[kp[i]] == vp[i]);
            }
        }
    }
}

/// The text of one property row: `subject`, key, value and source,
/// tab-separated.
pub open spec fn property_row(
    subj: Seq<char>,
    key: Seq<char>,
    val: Seq<char>,
    src: Seq<char>,
) -> Seq<char> {
    subj + seq!['\t'] + key + seq!['\t'] + val + seq!['\t'] + src
}

/// The row texts of a whole property listing, one per index.
pub open spec fn property_rows(
    subjs: Seq<Seq<char>>,
    keys: Seq<Seq<char>>,
    vals: Seq<Seq<char>>,
    srcs: Seq<Seq<char>>,
) -> Seq<Seq<char>> {
    Seq::new(subjs.len(), |i: int| property_row(subjs[i], keys[i], vals[i], srcs[i]))
}

/// The property parser is exact on well-formed listing text: on the
/// newline-joined text of rows `subject`, key, value, source (tab-separated,
/// fields free of tabs and newlines), the parsed map holds exactly the rows'
/// keys, and each key maps to the value of the last row that carries it.
pub proof fn lemma_property_parser_exact(
    subjs: Seq<Seq<char>>,
    keys: Seq<Seq<char>>,
    vals: Seq<Seq<char>>,
    srcs: Seq<Seq<char>>,
)
    requires
        subjs.len() >= 1,
        subjs.len() == keys.len(),
        subjs.len() == vals.len(),
        subjs.len() == srcs.len(),
        forall|i: int|
            0 <= i < subjs.len() ==> sep_free(#[trigger] subjs[i], '\t') && sep_free(
                subjs[i],
                '\n',
            ),
        forall|i: int|
            0 <= i < keys.len() ==> sep_free(#[trigger] keys[i], '\t') && sep_free(keys[i], '\n'),
        forall|i: int|
            0 <= i < vals.len() ==> sep_free(#[trigger] vals[i], '\t') && sep_free(vals[i], '\n'),
        forall|i: int|
            0 <= i < srcs.len() ==> sep_free(#[trigger] srcs[i], '\t') && sep_free(srcs[i], '\n'),
    ensures
        forall|k: Seq<char>| #[trigger]
            props_of(join_with(property_rows(subjs, keys, vals, srcs), '\n')).contains_key(k)
                <==> exists|i: int| 0 <= i < keys.len() && keys[i] == k,
        forall|i: int|
            0 <= i < keys.len() && is_last_of_key(keys, i) ==> props_of(
                join_with(property_rows(subjs, keys, vals, srcs), '\n'),
            )[#[trigger] keys[i]] == vals[i],
{
    let rows = property_rows(subjs, keys, vals, srcs);
    assert forall|i: int| 0 <= i < rows.len() implies sep_free(#[trigger] rows[i], '\n') by {
        assert(rows[i] == property_row(subjs[i], keys[i], vals[i], srcs[i]));
    }
    lemma_split_join(rows, '\n');
    assert forall|i: int| 0 <= i < rows.len() implies row_entry(#[trigger] rows[i]) == Some(
        (keys[i], vals[i]),
    ) by {
        lemma_row_entry_of_row(subjs[i], keys[i], vals[i], srcs[i]);
    }
    lemma_props_last_wins(rows, keys, vals);
}

/// A row that carries no entry — one with fewer than three tab-separated
/// columns — is skipped: removing it from the row sequence leaves the parsed
/// property map unchanged, so it neither adds nor removes entries for any
/// key.
pub proof fn lemma_malformed_row_skipped(lines: Seq<Seq<char>>, i: int)
    requires
        0 <= i < lines.len(),
        row_entry(lines[i]) is None,
    ensures
        props_of_lines(lines) == props_of_lines(lines.remove(i)),
    decreases lines.len(),
{
    let n: int = lines.len() - 1;
    if i == n {
        assert(lines.remove(i) =~~= lines.drop_last());
    } else {
        let lp = lines.drop_last();
        assert(lp[i] == lines[i]);
        lemma_malformed_row_skipped(lp, i);
        let r = lines.remove(i);
        assert(r.last() == lines[n]);
        assert(r.drop_last() =~~= lp.remove(i));
        assert(props_of_lines(lines) == match row_entry(lines.last()) {
            Some(kv) => props_of_lines(lp).insert(kv.0, kv.1),
            None => props_of_lines(lp),
        });
        assert(props_of_lines(r) == match row_entry(r.last()) {
            Some(kv) => props_of_lines(r.drop_last()).insert(kv.0, kv.1),
            None => props_of_lines(r.drop_last()),
        });
    }
}

/// Parse tab-delimited property rows out of `text` into a key→value map:
/// the executable form of `props_of`.
pub fn parse_properties(text: &str) -> (r: StringHashMap<String>)
    ensures
        r@.map_values(|v: String| v@) == props_of(text@),
{
    let lines: Vec<String> = split_str(text, '\n');
    let ghost all_lines = lines.deep_view();
    let mut r: StringHashMap<String> = StringHashMap::new();
    let mut idx: usize = 0;
    proof {
        assert(all_lines.take(0) =~~= Seq::<Seq<char>>::empty());
        assert(r@.map_values(|v: String| v@) =~= props_of_lines(all_lines.take(0)));
    }
    while idx < lines.len()
        invariant
            idx <= lines.len(),
            lines.deep_view() == all_lines,
            all_lines == split_on(text@, '\n'),
            r@.map_values(|v: String| v@) == props_of_lines(all_lines.take(idx as int)),
        decreases lines.len() - idx,
    {
        let fields: Vec<String> = split_str(lines[idx].as_str(), '\t');
        proof {
            assert(lines[idx as int]@ == all_lines[idx as int]);
            assert(fields.deep_view() == split_on(all_lines[idx as int], '\t'));
        }
        if fields.len() >= 3 {
            let key: String = fields[1].clone();
            let val: String = fields[2].clone();
            let ghost prev = r@;
            r.insert(key, val);
            proof {
                assert(fields.deep_view()[1] == fields[1 as int]@);
                assert(fields.deep_view()[2] == fields[2 as int]@);
                assert(row_entry(all_lines[idx as int]) == Some((key@, val@)));
                assert(all_lines.take(idx + 1).drop_last() =~~= all_lines.take(idx as int));
                assert(all_lines.take(idx + 1).last() == all_lines[idx as int]);
                assert(r@.map_values(|v: String| v@) =~= prev.map_values(|v: String| v@).insert(
                    key@,
                    val@,
                ));
            }
        } else {
            proof {
                assert(fields.deep_view().len() == fields@.len());
                assert(row_entry(all_lines[idx as int]) is None);
                assert(all_lines.take(idx + 1).drop_last() =~~= all_lines.take(idx as int));
                assert(all_lines.take(idx + 1).last() == all_lines[idx as int]);
            }
        }
        idx = idx + 1;
    }
    proof {
        assert(all_lines.take(idx as int) =~~= all_lines);
    }
    r
}

} // verus!
