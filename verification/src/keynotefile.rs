use vstd::prelude::*;
use vstd::string::*;

use crate::kn_utils::str_eq;
use crate::lines::spec_find_char;
use crate::lines::lemma_find_char_props;
use crate::lines::lemma_find_char_at;
use crate::section::Section;
use crate::section::SectionV;
use crate::section::entries_view;
use crate::section::entry_keys_unique;
use crate::section::spec_find_key;
use crate::section::lemma_find_key_props;

verus! {

/// The ways an operation on the store can fail.
#[derive(Clone, Copy, Debug, PartialEq, Eq, Structural)]
pub enum KnError {
    /// the section name is empty or holds a non-alphabetic character
    InvalidName,
    /// a section of that name already exists
    DuplicateSection,
    /// no section of that name exists
    SectionNotFound,
    /// the key already exists somewhere in the store
    DuplicateKey,
    /// no entry of that key exists
    KeyNotFound,
    /// an entry line appeared before any section header while loading
    CorruptedFormat,
    /// the key or the value holds text the file format cannot carry
    FormatError,
}

/// The one-line file form of the entry `k -> v`, without the newline.
pub open spec fn spec_entry_line(k: Seq<char>, v: Seq<char>) -> Seq<char> {
    seq!['\t', '<'] + k + seq!['>'] + v + seq!['<', '~', '>']
}

/// The key-value pair of an entry line: a line is an entry exactly when it
/// starts with a tab and contains `>`.  The key sits between position 2 and
/// the first `>`, the value between that `>` and the closing marker; a line
/// too short to carry both is no entry.
pub open spec fn spec_parse_entry(line: Seq<char>) -> Option<(Seq<char>, Seq<char>)> {
    if line.len() >= 1 && line[0] == '\t' && line.contains('>') {
        let i = spec_find_char(line, '>');
        if 2 <= i && i + 4 <= line.len() {
            Some((line.subrange(2, i), line.subrange(i + 1, line.len() - 3)))
        } else {
            None
        }
    } else {
        None
    }
}

/// Decoding the entry line of any pair whose key is free of `>` gives the
/// pair back.
pub proof fn lemma_entry_round_trip(k: Seq<char>, v: Seq<char>)
    requires
        !k.contains('>'),
    ensures
        spec_parse_entry(spec_entry_line(k, v)) == Some((k, v)),
{
    let line = spec_entry_line(k, v);
    let i = k.len() as int + 2;
    assert(line[0] == '\t');
    assert(line[i] == '>');
    assert forall|j: int| 0 <= j < i implies line[j] != '>' by {
        if 2 <= j {
            assert(line[j] == k[j - 2]);
            if k[j - 2] == '>' {
                assert(k.contains('>'));
            }
        }
    }
    lemma_find_char_at(line, '>', i);
    assert(line.contains('>'));
    assert(line.subrange(2, i) =~= k);
    assert(line.subrange(i + 1, line.len() - 3) =~= v);
}

/// Index of the first section named `name`, or -1 when there is none.
pub open spec fn spec_find_section(m: Seq<SectionV>, name: Seq<char>) -> int
    decreases m.len(),
{
    if m.len() == 0 {
        -1
    } else if m[0].name == name {
        0
    } else {
        let r = spec_find_section(m.drop_first(), name);
        if r < 0 {
            -1
        } else {
            r + 1
        }
    }
}

pub proof fn lemma_find_section_props(m: Seq<SectionV>, name: Seq<char>)
    ensures
        spec_find_section(m, name) >= 0 <==> exists|i: int|
            0 <= i < m.len() && (#[trigger] m[i]).name == name,
        spec_find_section(m, name) >= 0 ==> {
            let i = spec_find_section(m, name);
            &&& 0 <= i < m.len()
            &&& m[i].name == name
            &&& forall|j: int| 0 <= j < i ==> (#[trigger] m[j]).name != name
        },
    decreases m.len(),
{
    if m.len() > 0 && m[0].name != name {
        let t = m.drop_first();
        lemma_find_section_props(t, name);
        if exists|i: int| 0 <= i < t.len() && (#[trigger] t[i]).name == name {
            let i = choose|i: int| 0 <= i < t.len() && (#[trigger] t[i]).name == name;
            assert(m[i + 1].name == name);
        }
        if exists|i: int| 0 <= i < m.len() && (#[trigger] m[i]).name == name {
            let i = choose|i: int| 0 <= i < m.len() && (#[trigger] m[i]).name == name;
            assert(t[i - 1].name == name);
        }
        if spec_find_section(m, name) >= 0 {
            let i = spec_find_section(m, name);
            assert(i == spec_find_section(t, name) + 1);
            assert forall|j: int| 0 <= j < i implies (#[trigger] m[j]).name != name by {
                if j > 0 {
                    assert(m[j] == t[j - 1]);
                }
            }
        }
    }
}

/// When the first `i` names differ from `name` and section `i` carries it,
/// the first section of that name is section `i`.
pub proof fn lemma_find_section_at(m: Seq<SectionV>, name: Seq<char>, i: int)
    requires
        0 <= i < m.len(),
        m[i].name == name,
        forall|j: int| 0 <= j < i ==> (#[trigger] m[j]).name != name,
    ensures
        spec_find_section(m, name) == i,
    decreases m.len(),
{
    if i > 0 {
        lemma_find_section_at(m.drop_first(), name, i - 1);
    }
}

/// A section of that name exists.
pub open spec fn has_section(m: Seq<SectionV>, name: Seq<char>) -> bool {
    spec_find_section(m, name) >= 0
}

/// Some section holds an entry of that key.
pub open spec fn has_key(m: Seq<SectionV>, k: Seq<char>) -> bool {
    exists|i: int| 0 <= i < m.len() && spec_find_key((#[trigger] m[i]).entries, k) >= 0
}

/// The value under `k` in the first section that holds the key.
pub open spec fn spec_lookup(m: Seq<SectionV>, k: Seq<char>) -> Option<Seq<char>>
    decreases m.len(),
{
    if m.len() == 0 {
        None
    } else {
        let i = spec_find_key(m[0].entries, k);
        if i >= 0 {
            Some(m[0].entries[i].1)
        } else {
            spec_lookup(m.drop_first(), k)
        }
    }
}

/// A value is found under `k` exactly when some section holds the key.
pub proof fn lemma_lookup_some_iff_has_key(m: Seq<SectionV>, k: Seq<char>)
    ensures
        spec_lookup(m, k) is Some <==> has_key(m, k),
    decreases m.len(),
{
    if m.len() > 0 {
        let t = m.drop_first();
        lemma_lookup_some_iff_has_key(t, k);
        if spec_find_key(m[0].entries, k) >= 0 {
            assert(has_key(m, k));
        } else {
            if has_key(t, k) {
                let i = choose|i: int|
                    0 <= i < t.len() && spec_find_key((#[trigger] t[i]).entries, k) >= 0;
                assert(spec_find_key(m[i + 1].entries, k) >= 0);
                assert(has_key(m, k));
            }
            if has_key(m, k) {
                let i = choose|i: int|
                    0 <= i < m.len() && spec_find_key((#[trigger] m[i]).entries, k) >= 0;
                assert(i > 0);
                assert(spec_find_key(t[i - 1].entries, k) >= 0);
                assert(has_key(t, k));
            }
        }
    }
}

/// A section name the file format can carry on a header line.
pub open spec fn name_fmt_ok(n: Seq<char>) -> bool {
    !n.contains('\t') && !n.contains('\n')
}

/// A key and value the file format can carry on an entry line.
pub open spec fn entry_fmt_ok(k: Seq<char>, v: Seq<char>) -> bool {
    !k.contains('>') && !k.contains('\n') && !v.contains('\n')
}

pub open spec fn section_fmt_ok(s: SectionV) -> bool {
    &&& name_fmt_ok(s.name)
    &&& forall|i: int|
        0 <= i < s.entries.len() ==> entry_fmt_ok(
            (#[trigger] s.entries[i]).0,
            s.entries[i].1,
        )
}

/// The store's invariant: section names are pairwise distinct, keys are
/// distinct within each section, and every name, key and value fits the
/// file format.
pub open spec fn store_wf(m: Seq<SectionV>) -> bool {
    &&& forall|i: int, j: int|
        0 <= i < j < m.len() ==> (#[trigger] m[i]).name != (#[trigger] m[j]).name
    &&& forall|i: int| 0 <= i < m.len() ==> entry_keys_unique((#[trigger] m[i]).entries)
    &&& forall|i: int| 0 <= i < m.len() ==> section_fmt_ok(#[trigger] m[i])
}

/// The views of a list of sections.
pub open spec fn secs_view(v: Seq<Section>) -> Seq<SectionV> {
    v.map_values(|s: Section| s@)
}

/// The entry lines of a list of entries, in order and without newlines.
pub open spec fn entry_lines_of(es: Seq<(Seq<char>, Seq<char>)>) -> Seq<Seq<char>> {
    es.map_values(|e: (Seq<char>, Seq<char>)| spec_entry_line(e.0, e.1))
}

/// The lines of one section: its header line, then its entry lines.
pub open spec fn spec_section_lines(s: SectionV) -> Seq<Seq<char>> {
    seq![crate::section::spec_header_line(s.name)] + entry_lines_of(s.entries)
}

/// The lines of the whole store, section after section.
pub open spec fn spec_store_lines(m: Seq<SectionV>) -> Seq<Seq<char>>
    decreases m.len(),
{
    if m.len() == 0 {
        Seq::empty()
    } else {
        spec_section_lines(m[0]) + spec_store_lines(m.drop_first())
    }
}

/// The full text of the backing file for the store `m`.
pub open spec fn spec_store_content(m: Seq<SectionV>) -> Seq<char> {
    crate::lines::spec_join_lines(spec_store_lines(m))
}

/// The store's lines distribute over concatenation.
pub proof fn lemma_store_lines_app(a: Seq<SectionV>, b: Seq<SectionV>)
    ensures
        spec_store_lines(a + b) == spec_store_lines(a) + spec_store_lines(b),
    decreases a.len(),
{
    if a.len() == 0 {
        assert(a + b =~= b);
        assert(spec_store_lines(a) + spec_store_lines(b) =~= spec_store_lines(b));
    } else {
        assert((a + b).drop_first() =~= a.drop_first() + b);
        lemma_store_lines_app(a.drop_first(), b);
        assert(spec_store_lines(a + b) =~= spec_store_lines(a) + spec_store_lines(b));
    }
}

/// The lines of a one-section store are that section's lines.
pub proof fn lemma_store_lines_singleton(s: SectionV)
    ensures
        spec_store_lines(seq![s]) == spec_section_lines(s),
{
    let single = seq![s];
    assert(single.len() == 1);
    assert(single[0] == s);
    assert(single.drop_first() =~= Seq::<SectionV>::empty());
    assert(spec_store_lines(single) == spec_section_lines(single[0]) + spec_store_lines(
        single.drop_first(),
    ));
    assert(spec_store_lines(single.drop_first()) =~= Seq::<Seq<char>>::empty());
    assert(spec_store_lines(single) =~= spec_section_lines(s));
}

/// Serialising one section more appends that section's text.
pub proof fn lemma_store_content_snoc(m: Seq<SectionV>, i: int)
    requires
        0 <= i < m.len(),
    ensures
        spec_store_content(m.take(i + 1)) == spec_store_content(m.take(i))
            + crate::lines::spec_join_lines(spec_section_lines(m[i])),
{
    assert(m.take(i + 1) =~= m.take(i) + seq![m[i]]);
    lemma_store_lines_app(m.take(i), seq![m[i]]);
    lemma_store_lines_singleton(m[i]);
    crate::lines::lemma_join_lines_app(spec_store_lines(m.take(i)), spec_section_lines(m[i]));
}

/// A section's text is its header line, a newline, and its entry lines.
pub proof fn lemma_section_content(s: SectionV)
    ensures
        crate::lines::spec_join_lines(spec_section_lines(s)) == crate::section::spec_header_line(
            s.name,
        ).push('\n') + crate::lines::spec_join_lines(entry_lines_of(s.entries)),
{
    crate::lines::lemma_join_lines_app(
        seq![crate::section::spec_header_line(s.name)],
        entry_lines_of(s.entries),
    );
    crate::lines::lemma_join_lines_singleton(crate::section::spec_header_line(s.name));
}

/// What loading the given lines makes of the store `acc` when the entry
/// lines seen so far belong to section `cur`: a header line opens its
/// section anew (emptied when the name was already present), an entry line
/// joins the open section, any other line is skipped.  `None` when an entry
/// line appears while no section is open.
pub open spec fn spec_load_lines(
    lns: Seq<Seq<char>>,
    acc: Seq<SectionV>,
    cur: Option<int>,
) -> Option<Seq<SectionV>>
    decreases lns.len(),
{
    if lns.len() == 0 {
        Some(acc)
    } else {
        let line = lns[0];
        let rest = lns.drop_first();
        match crate::section::spec_parse_header(line) {
            Some(n) => {
                let j = spec_find_section(acc, n);
                if j >= 0 {
                    spec_load_lines(
                        rest,
                        acc.update(j, SectionV { name: n, entries: Seq::empty() }),
                        Some(j),
                    )
                } else {
                    spec_load_lines(
                        rest,
                        acc.push(SectionV { name: n, entries: Seq::empty() }),
                        Some(acc.len() as int),
                    )
                }
            },
            None => match spec_parse_entry(line) {
                Some(kv) => match cur {
                    Some(ci) => spec_load_lines(
                        rest,
                        acc.update(
                            ci,
                            SectionV {
                                name: acc[ci].name,
                                entries: crate::section::spec_upsert(acc[ci].entries, kv.0, kv.1),
                            },
                        ),
                        cur,
                    ),
                    None => None,
                },
                None => spec_load_lines(rest, acc, cur),
            },
        }
    }
}

/// The name a newline-free header line parses to fits the file format.
pub proof fn lemma_parse_header_fmt(line: Seq<char>)
    requires
        !line.contains('\n'),
    ensures
        crate::section::spec_parse_header(line) matches Some(n) ==> name_fmt_ok(n),
{
    if crate::section::spec_parse_header(line) is Some {
        crate::lines::lemma_subrange_keeps_absent(line, 1, line.len() - 1, '\n');
        crate::lines::lemma_subrange_keeps_absent(line, 1, line.len() - 1, '\t');
    }
}

/// The pair a newline-free entry line parses to fits the file format.
pub proof fn lemma_parse_entry_fmt(line: Seq<char>)
    requires
        !line.contains('\n'),
    ensures
        spec_parse_entry(line) matches Some(kv) ==> entry_fmt_ok(kv.0, kv.1),
{
    if spec_parse_entry(line) is Some {
        let i = spec_find_char(line, '>');
        lemma_find_char_props(line, '>');
        let k = line.subrange(2, i);
        if k.contains('>') {
            let t = choose|t: int| 0 <= t < k.len() && k[t] == '>';
            assert(line[2 + t] == '>');
        }
        crate::lines::lemma_subrange_keeps_absent(line, 2, i, '\n');
        crate::lines::lemma_subrange_keeps_absent(line, i + 1, line.len() - 3, '\n');
    }
}

/// Storing a pair that fits the format keeps every entry fitting it.
pub proof fn lemma_upsert_keeps_fmt(es: Seq<(Seq<char>, Seq<char>)>, k: Seq<char>, v: Seq<char>)
    requires
        forall|i: int| 0 <= i < es.len() ==> entry_fmt_ok((#[trigger] es[i]).0, es[i].1),
        entry_fmt_ok(k, v),
    ensures
        forall|i: int|
            0 <= i < crate::section::spec_upsert(es, k, v).len() ==> entry_fmt_ok(
                (#[trigger] crate::section::spec_upsert(es, k, v)[i]).0,
                crate::section::spec_upsert(es, k, v)[i].1,
            ),
{
    let es2 = crate::section::spec_upsert(es, k, v);
    lemma_find_key_props(es, k);
    assert forall|i: int| 0 <= i < es2.len() implies entry_fmt_ok(
        (#[trigger] es2[i]).0,
        es2[i].1,
    ) by {
        if i < es.len() && es2[i] == es[i] {
            assert(entry_fmt_ok(es[i].0, es[i].1));
        }
    }
}

/// Whether `v` contains the closing marker of an entry line.
pub open spec fn contains_marker(v: Seq<char>) -> bool {
    exists|i: int|
        0 <= i && i + 3 <= v.len() && #[trigger] v[i] == '<' && v[i + 1] == '~' && v[i + 2] == '>'
}

/// Whether `s` contains the closing marker of an entry line.
fn str_contains_marker(s: &str) -> (r: bool)
    ensures
        r == contains_marker(s@),
{
    let len = s.unicode_len();
    if len < 3 {
        proof {
            if contains_marker(s@) {
                let i = choose|i: int|
                    0 <= i && i + 3 <= s@.len() && #[trigger] s@[i] == '<' && s@[i + 1] == '~'
                        && s@[i + 2] == '>';
            }
        }
        return false;
    }
    let mut i: usize = 0;
    while i <= len - 3
        invariant
            0 <= i <= len - 2,
            3 <= len,
            len == s@.len(),
            forall|j: int|
                0 <= j < i ==> !(#[trigger] s@[j] == '<' && s@[j + 1] == '~' && s@[j + 2] == '>'),
        decreases len - i,
    {
        if s.get_char(i) == '<' && s.get_char(i + 1) == '~' && s.get_char(i + 2) == '>' {
            assert(contains_marker(s@));
            return true;
        }
        i += 1;
    }
    proof {
        if contains_marker(s@) {
            let j = choose|j: int|
                0 <= j && j + 3 <= s@.len() && #[trigger] s@[j] == '<' && s@[j + 1] == '~'
                    && s@[j + 2] == '>';
        }
    }
    false
}

/// A key and value that the entry codec accepts: the key must avoid `>`,
/// the value must avoid the closing marker, and neither may span lines.
pub open spec fn entry_encodable(k: Seq<char>, v: Seq<char>) -> bool {
    &&& !k.contains('>')
    &&& !k.contains('\n')
    &&& !contains_marker(v)
    &&& !v.contains('\n')
}

/// The store with the first entry keyed `k` removed from every section.
pub open spec fn remove_key_model(m: Seq<SectionV>, k: Seq<char>) -> Seq<SectionV> {
    m.map_values(
        |s: SectionV| SectionV {
            name: s.name,
            entries: crate::section::spec_remove_entry(s.entries, k),
        },
    )
}

/// Removing an entry keeps the remaining entries, their order and the
/// distinctness of their keys.
pub proof fn lemma_remove_entry_keeps(es: Seq<(Seq<char>, Seq<char>)>, k: Seq<char>)
    requires
        entry_keys_unique(es),
    ensures
        entry_keys_unique(crate::section::spec_remove_entry(es, k)),
        forall|i: int|
            0 <= i < crate::section::spec_remove_entry(es, k).len() ==> exists|j: int|
                0 <= j < es.len() && #[trigger] crate::section::spec_remove_entry(es, k)[i]
                    == es[j],
{
    let r = crate::section::spec_remove_entry(es, k);
    let f = spec_find_key(es, k);
    lemma_find_key_props(es, k);
    if f >= 0 {
        assert forall|i: int| 0 <= i < r.len() implies exists|j: int|
            0 <= j < es.len() && #[trigger] r[i] == es[j] by {
            if i < f {
                assert(r[i] == es[i]);
            } else {
                assert(r[i] == es[i + 1]);
            }
        }
        assert forall|a: int, b: int| 0 <= a < b < r.len() implies (#[trigger] r[a]).0 != (
        #[trigger] r[b]).0 by {
            let a2: int = if a < f {
                a
            } else {
                a + 1
            };
            let b2: int = if b < f {
                b
            } else {
                b + 1
            };
            assert(r[a] == es[a2]);
            assert(r[b] == es[b2]);
            assert(es[a2].0 != es[b2].0);
        }
    } else {
        assert forall|i: int| 0 <= i < r.len() implies exists|j: int|
            0 <= j < es.len() && #[trigger] r[i] == es[j] by {
            assert(r[i] == es[i]);
        }
    }
}

/// Appending a section appends its text to the store's text.
pub proof fn lemma_store_content_push(m: Seq<SectionV>, t: SectionV)
    ensures
        spec_store_content(m.push(t)) == spec_store_content(m) + crate::lines::spec_join_lines(
            spec_section_lines(t),
        ),
{
    assert(m.push(t) =~= m + seq![t]);
    lemma_store_lines_app(m, seq![t]);
    lemma_store_lines_singleton(t);
    crate::lines::lemma_join_lines_app(spec_store_lines(m), spec_section_lines(t));
}

/// The (section name, key) pairs of one section, in entry order.
pub open spec fn section_key_pairs(s: SectionV) -> Seq<(Seq<char>, Seq<char>)> {
    s.entries.map_values(|e: (Seq<char>, Seq<char>)| (s.name, e.0))
}

/// The (section name, key) pairs of the whole store, section after section.
pub open spec fn spec_key_list(m: Seq<SectionV>) -> Seq<(Seq<char>, Seq<char>)>
    decreases m.len(),
{
    if m.len() == 0 {
        Seq::empty()
    } else {
        section_key_pairs(m[0]) + spec_key_list(m.drop_first())
    }
}

/// The store's key list distributes over concatenation.
pub proof fn lemma_key_list_app(a: Seq<SectionV>, b: Seq<SectionV>)
    ensures
        spec_key_list(a + b) == spec_key_list(a) + spec_key_list(b),
    decreases a.len(),
{
    if a.len() == 0 {
        assert(a + b =~= b);
        assert(spec_key_list(a) + spec_key_list(b) =~= spec_key_list(b));
    } else {
        assert((a + b).drop_first() =~= a.drop_first() + b);
        lemma_key_list_app(a.drop_first(), b);
        assert(spec_key_list(a + b) =~= spec_key_list(a) + spec_key_list(b));
    }
}

/// The key list of a one-section store is that section's pairs.
pub proof fn lemma_key_list_singleton(s: SectionV)
    ensures
        spec_key_list(seq![s]) == section_key_pairs(s),
{
    let single = seq![s];
    assert(single.len() == 1);
    assert(single[0] == s);
    assert(single.drop_first() =~= Seq::<SectionV>::empty());
    assert(spec_key_list(single) == section_key_pairs(single[0]) + spec_key_list(
        single.drop_first(),
    ));
    assert(spec_key_list(single.drop_first()) =~= Seq::<(Seq<char>, Seq<char>)>::empty());
    assert(spec_key_list(single) =~= section_key_pairs(s));
}

/// The view of an `Option<usize>` index.
pub open spec fn cur_view(c: Option<usize>) -> Option<int> {
    match c {
        Some(x) => Some(x as int),
        None => None,
    }
}

/// A structurally equal copy of `v`.
fn copy_sections(v: &Vec<Section>) -> (r: Vec<Section>)
    ensures
        secs_view(r@) == secs_view(v@),
{
    let n = v.len();
    let mut r: Vec<Section> = Vec::new();
    let mut i: usize = 0;
    while i < n
        invariant
            0 <= i <= n,
            n == v@.len(),
            r@.len() == i,
            forall|j: int| 0 <= j < i ==> (#[trigger] r@[j])@ == v@[j]@,
        decreases n - i,
    {
        let sec = &v[i];
        let dn = sec.data.len();
        let mut data: Vec<(String, String)> = Vec::new();
        let mut j: usize = 0;
        while j < dn
            invariant
                0 <= j <= dn,
                dn == sec.data@.len(),
                data@.len() == j,
                forall|t: int| 0 <= t < j ==> data@[t] == sec.data@[t],
            decreases dn - j,
        {
            data.push((sec.data[j].0.clone(), sec.data[j].1.clone()));
            j += 1;
        }
        proof {
            assert(data@ =~= sec.data@);
        }
        r.push(Section { name: sec.name.clone(), data });
        proof {
            assert(r@[i as int]@ == v@[i as int]@);
        }
        i += 1;
    }
    proof {
        assert(secs_view(r@) =~= secs_view(v@));
    }
    r
}

/// The text of the whole store for `sections`.
fn build_content(sections: &Vec<Section>) -> (r: String)
    ensures
        r@ == spec_store_content(secs_view(sections@)),
{
    let ghost m = secs_view(sections@);
    let n = sections.len();
    let mut r = String::new();
    let mut i: usize = 0;
    proof {
        assert(m.take(0) =~= Seq::<SectionV>::empty());
    }
    while i < n
        invariant
            0 <= i <= n,
            n == sections@.len(),
            m == secs_view(sections@),
            r@ == spec_store_content(m.take(i as int)),
        decreases n - i,
    {
        let sec = &sections[i];
        let header = Section::build_section_string(sec.name.as_str());
        r.append(header.as_str());
        proof {
            lemma_store_content_snoc(m, i as int);
            lemma_section_content(m[i as int]);
            assert(m[i as int] == sec@);
        }
        let ghost es = m[i as int].entries;
        let ghost base = spec_store_content(m.take(i as int)) + crate::section::spec_header_line(
            m[i as int].name,
        ).push('\n');
        let en = sec.data.len();
        let mut j: usize = 0;
        proof {
            assert(entry_lines_of(es).take(0) =~= Seq::<Seq<char>>::empty());
            assert(r@ =~= base + crate::lines::spec_join_lines(entry_lines_of(es).take(0)));
        }
        while j < en
            invariant
                0 <= j <= en,
                en == sec.data@.len(),
                es == sec@.entries,
                es.len() == en,
                r@ == base + crate::lines::spec_join_lines(entry_lines_of(es).take(j as int)),
            decreases en - j,
        {
            let line = KeynoteFile::build_entry_string(
                sec.data[j].0.as_str(),
                sec.data[j].1.as_str(),
            );
            r.append(line.as_str());
            proof {
                crate::lines::lemma_join_lines_snoc(entry_lines_of(es), j as int);
                assert(entry_lines_of(es)[j as int] == spec_entry_line(
                    es[j as int].0,
                    es[j as int].1,
                ));
                assert(es[j as int] == (sec.data@[j as int].0@, sec.data@[j as int].1@));
                assert(r@ =~= base + crate::lines::spec_join_lines(
                    entry_lines_of(es).take(j as int + 1),
                ));
            }
            j += 1;
        }
        proof {
            assert(entry_lines_of(es).take(en as int) =~= entry_lines_of(es));
            assert(r@ =~= spec_store_content(m.take(i as int + 1)));
        }
        i += 1;
    }
    proof {
        assert(m.take(n as int) =~= m);
    }
    r
}

/// The in-memory store: the path of the backing file and the sections in
/// the order of their header lines in the file.
pub struct KeynoteFile {
    pub filepath: String,
    sections: Vec<Section>,
}

impl View for KeynoteFile {
    type V = Seq<SectionV>;

    closed spec fn view(&self) -> Seq<SectionV> {
        secs_view(self.sections@)
    }
}

/// Index of the first section named `name` in `sections`, or `None`.
fn find_section_idx(sections: &Vec<Section>, name: &str) -> (r: Option<usize>)
    ensures
        match r {
            Some(i) => 0 <= i < sections@.len() && spec_find_section(secs_view(sections@), name@)
                == i as int,
            None => spec_find_section(secs_view(sections@), name@) < 0,
        },
{
    let n = sections.len();
    let mut i: usize = 0;
    while i < n
        invariant
            0 <= i <= n,
            n == sections@.len(),
            forall|j: int| 0 <= j < i ==> (#[trigger] secs_view(sections@)[j]).name != name@,
        decreases n - i,
    {
        if str_eq(sections[i].name.as_str(), name) {
            proof {
                lemma_find_section_at(secs_view(sections@), name@, i as int);
            }
            return Some(i);
        }
        i += 1;
    }
    proof {
        let m = secs_view(sections@);
        lemma_find_section_props(m, name@);
        if spec_find_section(m, name@) >= 0 {
            assert(m[spec_find_section(m, name@)].name == name@);
        }
    }
    None
}

impl KeynoteFile {
    /// The store invariant, stated of the view.
    pub open spec fn wf(&self) -> bool {
        store_wf(self@)
    }

    /// The characters of the backing file's path.
    pub closed spec fn spec_path(&self) -> Seq<char> {
        self.filepath@
    }

    /// An empty store that will be backed by the file at `filepath`.
    pub fn new(filepath: &str) -> (kf: KeynoteFile)
        ensures
            kf@ == Seq::<SectionV>::empty(),
            kf.spec_path() == filepath@,
            kf.wf(),
    {
        let kf = KeynoteFile { filepath: filepath.to_owned(), sections: Vec::new() };
        proof {
            assert(kf@ =~= Seq::<SectionV>::empty());
        }
        kf
    }

    /// The entry line for `key -> value` as it appears in the data file,
    /// newline included.
    pub fn build_entry_string(key: &str, value: &str) -> (r: String)
        ensures
            r@ == spec_entry_line(key@, value@).push('\n'),
    {
        let mut entry = String::new();
        entry.append("\t<");
        entry.append(key);
        entry.append(">");
        entry.append(value);
        entry.append("<~>");
        entry.append("\n");
        proof {
            reveal_strlit("\t<");
            reveal_strlit(">");
            reveal_strlit("<~>");
            reveal_strlit("\n");
            assert(entry@ =~= spec_entry_line(key@, value@).push('\n'));
        }
        entry
    }

    /// The key-value pair of an entry line, `None` when the line is no
    /// entry.  A trailing newline is ignored.
    pub fn get_entry_from_string(line: &str) -> (r: Option<(&str, &str)>)
        ensures
            match r {
                Some(kv) => spec_parse_entry(crate::section::spec_strip_newline(line@)) == Some(
                    (kv.0@, kv.1@),
                ),
                None => spec_parse_entry(crate::section::spec_strip_newline(line@)) is None,
            },
    {
        let len = line.unicode_len();
        let end = if len > 0 && line.get_char(len - 1) == '\n' {
            len - 1
        } else {
            len
        };
        proof {
            assert(crate::section::spec_strip_newline(line@) =~= line@.subrange(0, end as int));
        }
        let ghost stripped = line@.subrange(0, end as int);
        if end == 0 {
            return None;
        }
        if line.get_char(0) != '\t' {
            assert(stripped[0] != '\t');
            return None;
        }
        let mut i: usize = 0;
        let mut found = false;
        while i < end && !found
            invariant
                0 <= i <= end <= len,
                len == line@.len(),
                stripped =~= line@.subrange(0, end as int),
                found ==> i < end && line@[i as int] == '>',
                forall|j: int| 0 <= j < i ==> line@[j] != '>',
            decreases end - i + if found {
                0int
            } else {
                1int
            },
        {
            if line.get_char(i) == '>' {
                found = true;
            } else {
                i += 1;
            }
        }
        if !found {
            proof {
                if stripped.contains('>') {
                    let j = choose|j: int| 0 <= j < stripped.len() && stripped[j] == '>';
                    assert(line@[j] == '>');
                }
            }
            return None;
        }
        proof {
            assert forall|j: int| 0 <= j < i implies stripped[j] != '>' by {
                assert(stripped[j] == line@[j]);
            }
            assert(stripped[i as int] == '>');
            lemma_find_char_at(stripped, '>', i as int);
            assert(stripped.contains('>'));
        }
        if i < 2 || end < 4 || i > end - 4 {
            return None;
        }
        let k = line.substring_char(2, i);
        let v = line.substring_char(i + 1, end - 3);
        proof {
            assert(k@ =~= stripped.subrange(2, i as int));
            assert(v@ =~= stripped.subrange(i as int + 1, stripped.len() - 3));
        }
        Some((k, v))
    }

    /// Reads the store from the text of the backing file, merging the file's
    /// sections and entries into the ones already in memory.  Fails, and
    /// leaves the store untouched, exactly when an entry line appears before
    /// any section header.
    pub fn load_data(&mut self, content: &str) -> (r: Result<(), KnError>)
        requires
            old(self).wf(),
        ensures
            final(self).spec_path() == old(self).spec_path(),
            final(self).wf(),
            match r {
                Ok(_) => Some(final(self)@) == spec_load_lines(
                    crate::lines::spec_split_lines(content@),
                    old(self)@,
                    None::<int>,
                ),
                Err(e) => {
                    &&& e == KnError::CorruptedFormat
                    &&& spec_load_lines(
                        crate::lines::spec_split_lines(content@),
                        old(self)@,
                        None::<int>,
                    ) is None
                    &&& final(self)@ == old(self)@
                },
            },
    {
        let ghost all = crate::lines::spec_split_lines(content@);
        let lines = crate::lines::split_lines(content);
        proof {
            crate::lines::lemma_split_lines_newline_free(content@);
            assert(all.skip(0) =~= all);
        }
        let mut work = copy_sections(&self.sections);
        let mut cur: Option<usize> = None;
        let n = lines.len();
        let mut i: usize = 0;
        while i < n
            invariant
                0 <= i <= n,
                n == lines@.len(),
                *self == *old(self),
                old(self).wf(),
                crate::lines::strs_view(lines@) == all,
                all == crate::lines::spec_split_lines(content@),
                forall|j: int| 0 <= j < all.len() ==> !(#[trigger] all[j]).contains('\n'),
                store_wf(secs_view(work@)),
                match cur {
                    Some(c) => (c as int) < work@.len(),
                    None => true,
                },
                spec_load_lines(all.skip(i as int), secs_view(work@), cur_view(cur))
                    == spec_load_lines(all, old(self)@, None::<int>),
            decreases n - i,
        {
            let ghost pre_acc = secs_view(work@);
            let ghost pre_cur = cur_view(cur);
            let ghost line_v = all[i as int];
            proof {
                assert(line_v == lines@[i as int]@);
                assert(!line_v.contains('\n'));
                if line_v.len() > 0 && line_v[line_v.len() - 1] == '\n' {
                    assert(line_v.contains('\n'));
                }
                assert(crate::section::spec_strip_newline(line_v) == line_v);
                assert(all.skip(i as int)[0] == line_v);
                assert(all.skip(i as int).drop_first() =~= all.skip(i as int + 1));
            }
            let line = &lines[i];
            if let Some(name) = Section::get_section_name_from_string(line.as_str()) {
                proof {
                    lemma_parse_header_fmt(line_v);
                    lemma_find_section_props(pre_acc, name@);
                }
                match find_section_idx(&work, name) {
                    Some(j) => {
                        let fresh = Section::new(name);
                        work.remove(j);
                        work.insert(j, fresh);
                        cur = Some(j);
                        proof {
                            let target = SectionV { name: name@, entries: Seq::empty() };
                            assert(secs_view(work@) =~= pre_acc.update(j as int, target));
                            assert(pre_acc[j as int].name == name@);
                            assert forall|a: int, b: int|
                                0 <= a < b < secs_view(work@).len() implies (#[trigger] secs_view(
                                work@,
                            )[a]).name != (#[trigger] secs_view(work@)[b]).name by {
                                assert(pre_acc[a].name != pre_acc[b].name);
                                assert(secs_view(work@)[a].name == pre_acc[a].name);
                                assert(secs_view(work@)[b].name == pre_acc[b].name);
                            }
                            assert(store_wf(secs_view(work@)));
                        }
                    },
                    None => {
                        let fresh = Section::new(name);
                        cur = Some(work.len());
                        work.push(fresh);
                        proof {
                            let target = SectionV { name: name@, entries: Seq::empty() };
                            assert(secs_view(work@) =~= pre_acc.push(target));
                            if exists|t: int|
                                0 <= t < pre_acc.len() && (#[trigger] pre_acc[t]).name == name@ {
                                assert(spec_find_section(pre_acc, name@) >= 0);
                            }
                            assert(store_wf(secs_view(work@)));
                        }
                    },
                }
            } else if let Some((k, v)) = KeynoteFile::get_entry_from_string(line.as_str()) {
                match cur {
                    None => {
                        proof {
                            assert(spec_load_lines(all.skip(i as int), pre_acc, pre_cur) is None);
                        }
                        return Err(KnError::CorruptedFormat);
                    },
                    Some(ci) => {
                        proof {
                            lemma_parse_entry_fmt(line_v);
                        }
                        let mut sec = work.remove(ci);
                        sec.add_entry(k, v);
                        work.insert(ci, sec);
                        proof {
                            let target = SectionV {
                                name: pre_acc[ci as int].name,
                                entries: crate::section::spec_upsert(
                                    pre_acc[ci as int].entries,
                                    k@,
                                    v@,
                                ),
                            };
                            assert(secs_view(work@) =~= pre_acc.update(ci as int, target));
                            lemma_upsert_keeps_fmt(pre_acc[ci as int].entries, k@, v@);
                            assert forall|a: int, b: int|
                                0 <= a < b < secs_view(work@).len() implies (#[trigger] secs_view(
                                work@,
                            )[a]).name != (#[trigger] secs_view(work@)[b]).name by {
                                assert(pre_acc[a].name != pre_acc[b].name);
                                assert(secs_view(work@)[a].name == pre_acc[a].name);
                                assert(secs_view(work@)[b].name == pre_acc[b].name);
                            }
                            assert(store_wf(secs_view(work@)));
                        }
                    },
                }
            } else {
            }
            i += 1;
        }
        proof {
            assert(all.skip(n as int) =~= Seq::<Seq<char>>::empty());
        }
        self.sections = work;
        Ok(())
    }

    /// Adds an empty section named `section_name` and returns the header
    /// line, newline included, for the caller to append to the backing
    /// file.  The name must be non-empty, alphabetic and new to the store.
    pub fn add_section(&mut self, section_name: &str) -> (r: Result<String, KnError>)
        requires
            old(self).wf(),
        ensures
            final(self).spec_path() == old(self).spec_path(),
            final(self).wf(),
            match r {
                Ok(line) => {
                    &&& section_name@.len() > 0
                    &&& crate::kn_utils::all_alphabetic(section_name@)
                    &&& !has_section(old(self)@, section_name@)
                    &&& final(self)@ == old(self)@.push(
                        SectionV {
                            name: section_name@,
                            entries: Seq::<(Seq<char>, Seq<char>)>::empty(),
                        },
                    )
                    &&& line@ == crate::section::spec_header_line(section_name@).push('\n')
                    &&& spec_store_content(final(self)@) == spec_store_content(old(self)@)
                        + line@
                },
                Err(e) => {
                    &&& final(self)@ == old(self)@
                    &&& (e == KnError::InvalidName && !(section_name@.len() > 0
                        && crate::kn_utils::all_alphabetic(section_name@))) || (e
                        == KnError::DuplicateSection && section_name@.len() > 0
                        && crate::kn_utils::all_alphabetic(section_name@) && has_section(
                        old(self)@,
                        section_name@,
                    ))
                },
            },
    {
        let len = section_name.unicode_len();
        if len == 0 {
            return Err(KnError::InvalidName);
        }
        if !crate::kn_utils::is_alphabetic(section_name) {
            return Err(KnError::InvalidName);
        }
        match find_section_idx(&self.sections, section_name) {
            Some(_) => Err(KnError::DuplicateSection),
            None => {
                let ghost pre = self@;
                let ghost target = SectionV {
                    name: section_name@,
                    entries: Seq::<(Seq<char>, Seq<char>)>::empty(),
                };
                let fresh = Section::new(section_name);
                self.sections.push(fresh);
                let line = Section::build_section_string(section_name);
                proof {
                    assert(self@ =~= pre.push(target));
                    lemma_find_section_props(pre, section_name@);
                    if exists|t: int|
                        0 <= t < pre.len() && (#[trigger] pre[t]).name == section_name@ {
                        assert(spec_find_section(pre, section_name@) >= 0);
                    }
                    assert(store_wf(self@));
                    lemma_store_content_push(pre, target);
                    lemma_section_content(target);
                    assert(entry_lines_of(target.entries) =~= Seq::<Seq<char>>::empty());
                    assert(crate::lines::spec_join_lines(spec_section_lines(target))
                        =~= crate::section::spec_header_line(section_name@).push('\n'));
                }
                Ok(line)
            },
        }
    }

    /// Adds the entry `key -> value` to the section named
    /// `section_to_add_to` and returns the new full text of the backing
    /// file.  The key must be new to the whole store, the section must
    /// exist, and the pair must fit the file format; on any failure the
    /// store is left untouched.
    pub fn add_key(&mut self, section_to_add_to: &str, key: &str, value: &str) -> (r: Result<
        String,
        KnError,
    >)
        requires
            old(self).wf(),
        ensures
            final(self).spec_path() == old(self).spec_path(),
            final(self).wf(),
            match r {
                Ok(content) => {
                    let j = spec_find_section(old(self)@, section_to_add_to@);
                    &&& !has_key(old(self)@, key@)
                    &&& has_section(old(self)@, section_to_add_to@)
                    &&& entry_encodable(key@, value@)
                    &&& final(self)@ == old(self)@.update(
                        j,
                        SectionV {
                            name: old(self)@[j].name,
                            entries: seq![(key@, value@)] + old(self)@[j].entries,
                        },
                    )
                    &&& content@ == spec_store_content(final(self)@)
                },
                Err(e) => {
                    &&& final(self)@ == old(self)@
                    &&& (e == KnError::DuplicateKey && has_key(old(self)@, key@)) || (e
                        == KnError::SectionNotFound && !has_key(old(self)@, key@)
                        && !has_section(old(self)@, section_to_add_to@)) || (e
                        == KnError::FormatError && !has_key(old(self)@, key@) && has_section(
                        old(self)@,
                        section_to_add_to@,
                    ) && !entry_encodable(key@, value@))
                },
            },
    {
        if self.contains_key(key) {
            return Err(KnError::DuplicateKey);
        }
        let j = match find_section_idx(&self.sections, section_to_add_to) {
            None => {
                return Err(KnError::SectionNotFound);
            },
            Some(j) => j,
        };
        if crate::kn_utils::str_contains_char(key, '>') || crate::kn_utils::str_contains_char(
            key,
            '\n',
        ) || str_contains_marker(value) || crate::kn_utils::str_contains_char(value, '\n') {
            return Err(KnError::FormatError);
        }
        let ghost pre = self@;
        let ghost target = SectionV {
            name: pre[j as int].name,
            entries: seq![(key@, value@)] + pre[j as int].entries,
        };
        let mut sec = self.sections.remove(j);
        sec.data.insert(0, (key.to_owned(), value.to_owned()));
        self.sections.insert(j, sec);
        proof {
            assert(entries_view(self.sections@[j as int].data@) =~= seq![(key@, value@)]
                + pre[j as int].entries);
            assert(self@ =~= pre.update(j as int, target));
            assert(spec_find_key(pre[j as int].entries, key@) < 0) by {
                if spec_find_key(pre[j as int].entries, key@) >= 0 {
                    assert(has_key(pre, key@));
                }
            }
            lemma_find_key_props(pre[j as int].entries, key@);
            assert forall|a: int, b: int|
                0 <= a < b < target.entries.len() implies (#[trigger] target.entries[a]).0 != (
            #[trigger] target.entries[b]).0 by {
                if a == 0 {
                    if exists|t: int|
                        0 <= t < pre[j as int].entries.len() && (#[trigger] pre[j as int].entries[t]).0
                            == key@ {
                        assert(spec_find_key(pre[j as int].entries, key@) >= 0);
                    }
                    assert(target.entries[b] == pre[j as int].entries[b - 1]);
                } else {
                    assert(target.entries[a] == pre[j as int].entries[a - 1]);
                    assert(target.entries[b] == pre[j as int].entries[b - 1]);
                }
            }
            assert forall|a: int, b: int|
                0 <= a < b < self@.len() implies (#[trigger] self@[a]).name != (
            #[trigger] self@[b]).name by {
                assert(pre[a].name != pre[b].name);
                assert(self@[a].name == pre[a].name);
                assert(self@[b].name == pre[b].name);
            }
            assert(section_fmt_ok(target)) by {
                assert forall|t: int|
                    0 <= t < target.entries.len() implies entry_fmt_ok(
                    (#[trigger] target.entries[t]).0,
                    target.entries[t].1,
                ) by {
                    if t > 0 {
                        assert(target.entries[t] == pre[j as int].entries[t - 1]);
                        assert(section_fmt_ok(pre[j as int]));
                    }
                }
            }
            assert(store_wf(self@));
        }
        let content = build_content(&self.sections);
        Ok(content)
    }

    /// Removes the entry keyed `key` from the store and returns the new
    /// full text of the backing file.  Fails, and leaves the store
    /// untouched, exactly when no entry carries the key.
    pub fn remove_key(&mut self, key: &str) -> (r: Result<String, KnError>)
        requires
            old(self).wf(),
        ensures
            final(self).spec_path() == old(self).spec_path(),
            final(self).wf(),
            match r {
                Ok(content) => {
                    &&& has_key(old(self)@, key@)
                    &&& final(self)@ == remove_key_model(old(self)@, key@)
                    &&& content@ == spec_store_content(final(self)@)
                },
                Err(e) => {
                    &&& e == KnError::KeyNotFound
                    &&& !has_key(old(self)@, key@)
                    &&& final(self)@ == old(self)@
                },
            },
    {
        if !self.contains_key(key) {
            return Err(KnError::KeyNotFound);
        }
        let n = self.sections.len();
        let mut i: usize = 0;
        while i < n
            invariant
                0 <= i <= n,
                n == old(self)@.len(),
                self@.len() == n,
                self.filepath == old(self).filepath,
                old(self).wf(),
                forall|j: int|
                    0 <= j < i ==> #[trigger] self@[j] == (SectionV {
                        name: old(self)@[j].name,
                        entries: crate::section::spec_remove_entry(old(self)@[j].entries, key@),
                    }),
                forall|j: int| i <= j < n ==> #[trigger] self@[j] == old(self)@[j],
            decreases n - i,
        {
            let found = self.sections[i].find_entry_idx(key);
            let ghost pre_vec = self.sections@;
            let ghost pre_model = self@;
            match found {
                Some(jj) => {
                    let mut sec = self.sections.remove(i);
                    sec.data.remove(jj);
                    self.sections.insert(i, sec);
                    proof {
                        assert forall|j: int|
                            0 <= j < n && j != i as int implies self.sections@[j] == pre_vec[j] by {
                            if j > i as int {
                                assert(self.sections@[j] == pre_vec.remove(i as int)[j - 1]);
                            }
                        }
                        assert(entries_view(self.sections@[i as int].data@)
                            =~= pre_model[i as int].entries.remove(jj as int));
                        assert(self@[i as int] == (SectionV {
                            name: old(self)@[i as int].name,
                            entries: crate::section::spec_remove_entry(
                                old(self)@[i as int].entries,
                                key@,
                            ),
                        }));
                        assert forall|j: int|
                            0 <= j < i implies #[trigger] self@[j] == (SectionV {
                            name: old(self)@[j].name,
                            entries: crate::section::spec_remove_entry(
                                old(self)@[j].entries,
                                key@,
                            ),
                        }) by {
                            assert(self@[j] == pre_model[j]);
                        }
                        assert forall|j: int|
                            i as int + 1 <= j < n implies #[trigger] self@[j] == old(self)@[j] by {
                            assert(self@[j] == pre_model[j]);
                        }
                    }
                },
                None => {
                    proof {
                        assert(self@[i as int] == old(self)@[i as int]);
                        assert(self@[i as int] == self.sections@[i as int]@);
                        assert(spec_find_key(old(self)@[i as int].entries, key@) < 0);
                        assert(crate::section::spec_remove_entry(
                            old(self)@[i as int].entries,
                            key@,
                        ) == old(self)@[i as int].entries);
                        assert(self@[i as int] == (SectionV {
                            name: old(self)@[i as int].name,
                            entries: crate::section::spec_remove_entry(
                                old(self)@[i as int].entries,
                                key@,
                            ),
                        }));
                    }
                },
            }
            i += 1;
        }
        proof {
            assert(self@ =~= remove_key_model(old(self)@, key@));
            assert forall|j: int| 0 <= j < self@.len() implies entry_keys_unique(
                (#[trigger] self@[j]).entries,
            ) && section_fmt_ok(self@[j]) by {
                lemma_remove_entry_keeps(old(self)@[j].entries, key@);
                let es = crate::section::spec_remove_entry(old(self)@[j].entries, key@);
                assert(section_fmt_ok(old(self)@[j]));
                assert forall|t: int| 0 <= t < es.len() implies entry_fmt_ok(
                    (#[trigger] es[t]).0,
                    es[t].1,
                ) by {
                    let w = choose|w: int|
                        0 <= w < old(self)@[j].entries.len() && es[t] == old(
                            self,
                        )@[j].entries[w];
                    assert(entry_fmt_ok(old(self)@[j].entries[w].0, old(self)@[j].entries[w].1));
                }
            }
            assert forall|a: int, b: int|
                0 <= a < b < self@.len() implies (#[trigger] self@[a]).name != (
            #[trigger] self@[b]).name by {
                assert(old(self)@[a].name != old(self)@[b].name);
            }
            assert(store_wf(self@));
        }
        let content = build_content(&self.sections);
        Ok(content)
    }

    /// Removes the section named `section_to_remove` with all its entries
    /// and returns the new full text of the backing file.  Fails, and
    /// leaves the store untouched, exactly when no section carries the
    /// name.
    pub fn remove_section(&mut self, section_to_remove: &str) -> (r: Result<String, KnError>)
        requires
            old(self).wf(),
        ensures
            final(self).spec_path() == old(self).spec_path(),
            final(self).wf(),
            match r {
                Ok(content) => {
                    &&& has_section(old(self)@, section_to_remove@)
                    &&& final(self)@ == old(self)@.remove(
                        spec_find_section(old(self)@, section_to_remove@),
                    )
                    &&& content@ == spec_store_content(final(self)@)
                },
                Err(e) => {
                    &&& e == KnError::SectionNotFound
                    &&& !has_section(old(self)@, section_to_remove@)
                    &&& final(self)@ == old(self)@
                },
            },
    {
        match find_section_idx(&self.sections, section_to_remove) {
            None => Err(KnError::SectionNotFound),
            Some(j) => {
                let ghost pre = self@;
                self.sections.remove(j);
                proof {
                    assert(self@ =~= pre.remove(j as int));
                    assert forall|a: int, b: int|
                        0 <= a < b < self@.len() implies (#[trigger] self@[a]).name != (
                    #[trigger] self@[b]).name by {
                        let a2: int = if a < j as int {
                            a
                        } else {
                            a + 1
                        };
                        let b2: int = if b < j as int {
                            b
                        } else {
                            b + 1
                        };
                        assert(self@[a] == pre[a2]);
                        assert(self@[b] == pre[b2]);
                        assert(pre[a2].name != pre[b2].name);
                    }
                    assert forall|t: int| 0 <= t < self@.len() implies entry_keys_unique(
                        (#[trigger] self@[t]).entries,
                    ) && section_fmt_ok(self@[t]) by {
                        let t2: int = if t < j as int {
                            t
                        } else {
                            t + 1
                        };
                        assert(self@[t] == pre[t2]);
                        assert(entry_keys_unique(pre[t2].entries));
                        assert(section_fmt_ok(pre[t2]));
                    }
                    assert(store_wf(self@));
                }
                let content = build_content(&self.sections);
                Ok(content)
            },
        }
    }

    /// The section named `section_name`, or `None` when there is none.
    pub fn get_section(&self, section_name: &str) -> (r: Option<&Section>)
        ensures
            match r {
                Some(sec) => {
                    let j = spec_find_section(self@, section_name@);
                    j >= 0 && sec@ == self@[j]
                },
                None => spec_find_section(self@, section_name@) < 0,
            },
    {
        match find_section_idx(&self.sections, section_name) {
            Some(i) => Some(&self.sections[i]),
            None => None,
        }
    }

    /// All sections, in file order.
    pub fn get_sections(&self) -> (r: &Vec<Section>)
        ensures
            secs_view(r@) == self@,
    {
        &self.sections
    }

    /// Whether any section holds an entry of this key.
    pub fn contains_key(&self, key: &str) -> (r: bool)
        ensures
            r == has_key(self@, key@),
    {
        let n = self.sections.len();
        let mut i: usize = 0;
        while i < n
            invariant
                0 <= i <= n,
                n == self@.len(),
                forall|j: int|
                    0 <= j < i ==> spec_find_key((#[trigger] self@[j]).entries, key@) < 0,
            decreases n - i,
        {
            if self.sections[i].get(key).is_some() {
                proof {
                    assert(spec_find_key(self@[i as int].entries, key@) >= 0);
                }
                return true;
            }
            i += 1;
        }
        proof {
            if has_key(self@, key@) {
                let j = choose|j: int|
                    0 <= j < self@.len() && spec_find_key((#[trigger] self@[j]).entries, key@)
                        >= 0;
            }
        }
        false
    }

    /// The value stored under `key`, searching the sections in file order.
    pub fn get_value_from_key(&self, key: &str) -> (r: Option<&str>)
        ensures
            match r {
                Some(v) => spec_lookup(self@, key@) == Some(v@),
                None => spec_lookup(self@, key@) is None,
            },
    {
        let n = self.sections.len();
        let mut i: usize = 0;
        proof {
            assert(self@.skip(0) =~= self@);
        }
        while i < n
            invariant
                0 <= i <= n,
                n == self@.len(),
                spec_lookup(self@, key@) == spec_lookup(self@.skip(i as int), key@),
            decreases n - i,
        {
            proof {
                assert(self@.skip(i as int)[0] == self@[i as int]);
                assert(self@.skip(i as int).drop_first() =~= self@.skip(i as int + 1));
            }
            match self.sections[i].get(key) {
                Some(v) => {
                    return Some(v);
                },
                None => {},
            }
            i += 1;
        }
        proof {
            assert(self@.skip(n as int) =~= Seq::<SectionV>::empty());
        }
        None
    }

    /// The (section name, key) pairs of all entries, in file order.
    pub fn list_keys(&self) -> (r: Vec<(String, String)>)
        ensures
            entries_view(r@) == spec_key_list(self@),
    {
        let ghost m = self@;
        let n = self.sections.len();
        let mut r: Vec<(String, String)> = Vec::new();
        let mut i: usize = 0;
        proof {
            assert(m.take(0) =~= Seq::<SectionV>::empty());
            assert(entries_view(r@) =~= spec_key_list(m.take(0)));
        }
        while i < n
            invariant
                0 <= i <= n,
                n == self.sections@.len(),
                m == self@,
                entries_view(r@) == spec_key_list(m.take(i as int)),
            decreases n - i,
        {
            let sec = &self.sections[i];
            let en = sec.data.len();
            let mut j: usize = 0;
            proof {
                assert(sec@ == m[i as int]);
                assert(section_key_pairs(m[i as int]).take(0) =~= Seq::<
                    (Seq<char>, Seq<char>),
                >::empty());
                assert(entries_view(r@) =~= spec_key_list(m.take(i as int)) + section_key_pairs(
                    m[i as int],
                ).take(0));
            }
            while j < en
                invariant
                    0 <= j <= en,
                    0 <= i < n,
                    n == self.sections@.len(),
                    m == self@,
                    sec == &self.sections[i as int],
                    sec@ == m[i as int],
                    en == sec.data@.len(),
                    entries_view(r@) == spec_key_list(m.take(i as int)) + section_key_pairs(
                        m[i as int],
                    ).take(j as int),
                decreases en - j,
            {
                let ghost prev = r@;
                r.push((sec.name.clone(), sec.data[j].0.clone()));
                proof {
                    assert(section_key_pairs(m[i as int])[j as int] == (
                        m[i as int].name,
                        m[i as int].entries[j as int].0,
                    ));
                    assert(m[i as int].entries[j as int].0 == sec.data@[j as int].0@);
                    assert(section_key_pairs(m[i as int]).take(j as int + 1) =~= section_key_pairs(
                        m[i as int],
                    ).take(j as int).push(section_key_pairs(m[i as int])[j as int]));
                    assert(entries_view(r@) =~= entries_view(prev).push(
                        (sec.name@, sec.data@[j as int].0@),
                    ));
                    assert(entries_view(r@) =~= spec_key_list(m.take(i as int))
                        + section_key_pairs(m[i as int]).take(j as int + 1));
                }
                j += 1;
            }
            proof {
                assert(section_key_pairs(m[i as int]).take(en as int) =~= section_key_pairs(
                    m[i as int],
                ));
                assert(m.take(i as int + 1) =~= m.take(i as int) + seq![m[i as int]]);
                lemma_key_list_app(m.take(i as int), seq![m[i as int]]);
                lemma_key_list_singleton(m[i as int]);
                assert(entries_view(r@) =~= spec_key_list(m.take(i as int + 1)));
            }
            i += 1;
        }
        proof {
            assert(m.take(n as int) =~= m);
        }
        r
    }

    /// The names of all sections, in file order.
    pub fn list_sections(&self) -> (r: Vec<String>)
        ensures
            crate::lines::strs_view(r@) == self@.map_values(|s: SectionV| s.name),
    {
        let n = self.sections.len();
        let mut r: Vec<String> = Vec::new();
        let mut i: usize = 0;
        while i < n
            invariant
                0 <= i <= n,
                n == self@.len(),
                r@.len() == i,
                forall|j: int| 0 <= j < i ==> (#[trigger] r@[j])@ == self@[j].name,
            decreases n - i,
        {
            r.push(self.sections[i].name.clone());
            proof {
                assert(r@[i as int]@ == self@[i as int].name);
            }
            i += 1;
        }
        proof {
            assert(crate::lines::strs_view(r@) =~= self@.map_values(|s: SectionV| s.name));
        }
        r
    }
}

} // verus!
