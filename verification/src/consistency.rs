use vstd::prelude::*;

use crate::lines::lemma_split_of_join;
use crate::lines::spec_split_lines;
use crate::section::SectionV;
use crate::section::entry_keys_unique;
use crate::section::lemma_find_key_props;
use crate::section::lemma_header_round_trip;
use crate::section::spec_find_key;
use crate::section::spec_header_line;
use crate::section::spec_parse_header;
use crate::section::spec_upsert;
use crate::keynotefile::entry_fmt_ok;
use crate::keynotefile::entry_lines_of;
use crate::keynotefile::lemma_entry_round_trip;
use crate::keynotefile::lemma_find_section_props;
use crate::keynotefile::name_fmt_ok;
use crate::keynotefile::section_fmt_ok;
use crate::keynotefile::spec_entry_line;
use crate::keynotefile::spec_find_section;
use crate::keynotefile::spec_load_lines;
use crate::keynotefile::spec_section_lines;
use crate::keynotefile::spec_store_content;
use crate::keynotefile::spec_store_lines;
use crate::keynotefile::store_wf;

verus! {

/// The header line of a name that spans no lines spans no lines itself.
proof fn lemma_header_line_nl_free(n: Seq<char>)
    requires
        !n.contains('\n'),
    ensures
        !spec_header_line(n).contains('\n'),
{
    let line = spec_header_line(n);
    if line.contains('\n') {
        let k = choose|k: int| 0 <= k < line.len() && line[k] == '\n';
        if 1 <= k < line.len() - 1 {
            assert(n[k - 1] == '\n');
            assert(n.contains('\n'));
        }
    }
}

/// The entry line of a pair that spans no lines spans no lines itself.
proof fn lemma_entry_line_nl_free(k: Seq<char>, v: Seq<char>)
    requires
        !k.contains('\n'),
        !v.contains('\n'),
    ensures
        !spec_entry_line(k, v).contains('\n'),
{
    let line = spec_entry_line(k, v);
    if line.contains('\n') {
        let t = choose|t: int| 0 <= t < line.len() && line[t] == '\n';
        if 2 <= t < 2 + k.len() {
            assert(k[t - 2] == '\n');
            assert(k.contains('\n'));
        } else if 3 + k.len() <= t < 3 + k.len() + v.len() {
            assert(v[t - 3 - k.len()] == '\n');
            assert(v.contains('\n'));
        }
    }
}

/// No line of a well-formatted store's serialisation holds a newline.
proof fn lemma_store_lines_nl_free(m: Seq<SectionV>)
    requires
        forall|i: int| 0 <= i < m.len() ==> section_fmt_ok(#[trigger] m[i]),
    ensures
        forall|i: int|
            0 <= i < spec_store_lines(m).len() ==> !(#[trigger] spec_store_lines(m)[i]).contains(
                '\n',
            ),
    decreases m.len(),
{
    if m.len() > 0 {
        let s = m[0];
        let sl = spec_section_lines(s);
        assert(section_fmt_ok(s));
        assert forall|t: int| 0 <= t < sl.len() implies !(#[trigger] sl[t]).contains('\n') by {
            if t == 0 {
                lemma_header_line_nl_free(s.name);
            } else {
                assert(sl[t] == entry_lines_of(s.entries)[t - 1]);
                assert(entry_lines_of(s.entries)[t - 1] == spec_entry_line(
                    s.entries[t - 1].0,
                    s.entries[t - 1].1,
                ));
                assert(entry_fmt_ok(s.entries[t - 1].0, s.entries[t - 1].1));
                lemma_entry_line_nl_free(s.entries[t - 1].0, s.entries[t - 1].1);
            }
        }
        let rest = m.drop_first();
        assert forall|i: int| 0 <= i < rest.len() implies section_fmt_ok(#[trigger] rest[i]) by {
            assert(rest[i] == m[i + 1]);
        }
        lemma_store_lines_nl_free(rest);
        assert forall|i: int|
            0 <= i < spec_store_lines(m).len() implies !(#[trigger] spec_store_lines(
            m,
        )[i]).contains('\n') by {
            if i < sl.len() {
                assert(spec_store_lines(m)[i] == sl[i]);
            } else {
                assert(spec_store_lines(m)[i] == spec_store_lines(rest)[i - sl.len()]);
            }
        }
    }
}

/// Loading the entry lines of `es`, with section `ci` open, appends the
/// entries of `es` to that section.
proof fn lemma_load_entries(
    es: Seq<(Seq<char>, Seq<char>)>,
    acc: Seq<SectionV>,
    ci: int,
    rest: Seq<Seq<char>>,
)
    requires
        0 <= ci < acc.len(),
        entry_keys_unique(acc[ci].entries + es),
        forall|t: int| 0 <= t < es.len() ==> entry_fmt_ok((#[trigger] es[t]).0, es[t].1),
    ensures
        spec_load_lines(entry_lines_of(es) + rest, acc, Some(ci)) == spec_load_lines(
            rest,
            acc.update(ci, SectionV { name: acc[ci].name, entries: acc[ci].entries + es }),
            Some(ci),
        ),
    decreases es.len(),
{
    if es.len() == 0 {
        assert(entry_lines_of(es) + rest =~= rest);
        assert(acc[ci].entries + es =~= acc[ci].entries);
        assert(acc.update(
            ci,
            SectionV { name: acc[ci].name, entries: acc[ci].entries + es },
        ) =~= acc);
    } else {
        let e = es[0];
        let line = spec_entry_line(e.0, e.1);
        let lns = entry_lines_of(es) + rest;
        assert(lns[0] == line);
        assert(lns.drop_first() =~= entry_lines_of(es.drop_first()) + rest);
        assert(line[0] == '\t');
        assert(spec_parse_header(line) is None);
        assert(entry_fmt_ok(e.0, e.1));
        lemma_entry_round_trip(e.0, e.1);
        let old_es = acc[ci].entries;
        lemma_find_key_props(old_es, e.0);
        if spec_find_key(old_es, e.0) >= 0 {
            let f = spec_find_key(old_es, e.0);
            assert((old_es + es)[f].0 == e.0);
            assert((old_es + es)[old_es.len() as int].0 == e.0);
            assert(false);
        }
        assert(spec_upsert(old_es, e.0, e.1) == old_es.push((e.0, e.1)));
        assert((e.0, e.1) == e);
        let acc1 = acc.update(ci, SectionV { name: acc[ci].name, entries: old_es.push(e) });
        assert(spec_load_lines(lns, acc, Some(ci)) == spec_load_lines(
            lns.drop_first(),
            acc1,
            Some(ci),
        ));
        assert(acc1[ci].entries + es.drop_first() =~= old_es + es);
        assert forall|t: int| 0 <= t < es.drop_first().len() implies entry_fmt_ok(
            (#[trigger] es.drop_first()[t]).0,
            es.drop_first()[t].1,
        ) by {
            assert(es.drop_first()[t] == es[t + 1]);
        }
        lemma_load_entries(es.drop_first(), acc1, ci, rest);
        assert(acc1.update(
            ci,
            SectionV { name: acc1[ci].name, entries: acc1[ci].entries + es.drop_first() },
        ) =~= acc.update(ci, SectionV { name: acc[ci].name, entries: acc[ci].entries + es }));
    }
}

/// Loading the serialised lines of the sections `ms` on top of the store
/// `acc` appends exactly the sections `ms`.
proof fn lemma_load_sections(ms: Seq<SectionV>, acc: Seq<SectionV>, cur: Option<int>)
    requires
        store_wf(acc + ms),
    ensures
        spec_load_lines(spec_store_lines(ms), acc, cur) == Some(acc + ms),
    decreases ms.len(),
{
    if ms.len() == 0 {
        assert(spec_store_lines(ms) =~= Seq::<Seq<char>>::empty());
        assert(acc + ms =~= acc);
    } else {
        let s = ms[0];
        let whole = acc + ms;
        assert(s == whole[acc.len() as int]);
        assert(section_fmt_ok(s));
        assert(name_fmt_ok(s.name));
        let header = spec_header_line(s.name);
        let lns = spec_store_lines(ms);
        assert(lns =~= seq![header] + (entry_lines_of(s.entries) + spec_store_lines(
            ms.drop_first(),
        )));
        assert(lns[0] == header);
        assert(lns.drop_first() =~= entry_lines_of(s.entries) + spec_store_lines(
            ms.drop_first(),
        ));
        lemma_header_round_trip(s.name);
        lemma_find_section_props(acc, s.name);
        if spec_find_section(acc, s.name) >= 0 {
            let f = spec_find_section(acc, s.name);
            assert(acc[f].name == s.name);
            assert(whole[f].name == whole[acc.len() as int].name);
            assert(false);
        }
        let fresh = SectionV { name: s.name, entries: Seq::empty() };
        let acc1 = acc.push(fresh);
        assert(spec_load_lines(lns, acc, cur) == spec_load_lines(
            lns.drop_first(),
            acc1,
            Some(acc.len() as int),
        ));
        let ci = acc.len() as int;
        assert(acc1[ci].entries + s.entries =~= s.entries);
        assert(entry_keys_unique(s.entries));
        assert(entry_keys_unique(acc1[ci].entries + s.entries));
        lemma_load_entries(s.entries, acc1, ci, spec_store_lines(ms.drop_first()));
        let acc2 = acc1.update(ci, SectionV { name: acc1[ci].name, entries: acc1[ci].entries
            + s.entries });
        assert(acc2 =~~= acc.push(s));
        assert(acc.push(s) + ms.drop_first() =~= acc + ms);
        lemma_load_sections(ms.drop_first(), acc.push(s), Some(ci));
    }
}

/// The store's text loads back to exactly the store.
///
/// Every mutating operation leaves the store satisfying `store_wf` and
/// leaves the backing file holding `spec_store_content` of the store, so by
/// this lemma a fresh store that loads the file holds exactly the sections
/// that were in memory when the file was written.
pub proof fn lemma_store_round_trip(m: Seq<SectionV>)
    requires
        store_wf(m),
    ensures
        spec_load_lines(spec_split_lines(spec_store_content(m)), Seq::empty(), None::<int>)
            == Some(m),
{
    lemma_store_lines_nl_free(m);
    lemma_split_of_join(spec_store_lines(m));
    assert(Seq::<SectionV>::empty() + m =~= m);
    lemma_load_sections(m, Seq::empty(), None::<int>);
}

} // verus!
