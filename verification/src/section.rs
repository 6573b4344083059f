use vstd::prelude::*;
use vstd::string::*;

use crate::kn_utils::str_eq;

verus! {

/// The mathematical value of a section: its name and its entries, the
/// entries in the order of their lines in the file.
#[verifier::ext_equal]
pub ghost struct SectionV {
    pub name: Seq<char>,
    pub entries: Seq<(Seq<char>, Seq<char>)>,
}

/// The views of a list of key-value pairs.
pub open spec fn entries_view(d: Seq<(String, String)>) -> Seq<(Seq<char>, Seq<char>)> {
    d.map_values(|p: (String, String)| (p.0@, p.1@))
}

/// No two entries share a key.
pub open spec fn entry_keys_unique(es: Seq<(Seq<char>, Seq<char>)>) -> bool {
    forall|i: int, j: int| 0 <= i < j < es.len() ==> (#[trigger] es[i]).0 != (#[trigger] es[j]).0
}

/// Index of the first entry with key `k`, or -1 when there is none.
pub open spec fn spec_find_key(es: Seq<(Seq<char>, Seq<char>)>, k: Seq<char>) -> int
    decreases es.len(),
{
    if es.len() == 0 {
        -1
    } else if es[0].0 == k {
        0
    } else {
        let r = spec_find_key(es.drop_first(), k);
        if r < 0 {
            -1
        } else {
            r + 1
        }
    }
}

pub proof fn lemma_find_key_props(es: Seq<(Seq<char>, Seq<char>)>, k: Seq<char>)
    ensures
        spec_find_key(es, k) >= 0 <==> exists|i: int| 0 <= i < es.len() && (#[trigger] es[i]).0
            == k,
        spec_find_key(es, k) >= 0 ==> {
            let i = spec_find_key(es, k);
            &&& 0 <= i < es.len()
            &&& es[i].0 == k
            &&& forall|j: int| 0 <= j < i ==> (#[trigger] es[j]).0 != k
        },
    decreases es.len(),
{
    if es.len() > 0 && es[0].0 != k {
        let t = es.drop_first();
        lemma_find_key_props(t, k);
        if exists|i: int| 0 <= i < t.len() && (#[trigger] t[i]).0 == k {
            let i = choose|i: int| 0 <= i < t.len() && (#[trigger] t[i]).0 == k;
            assert(es[i + 1].0 == k);
        }
        if exists|i: int| 0 <= i < es.len() && (#[trigger] es[i]).0 == k {
            let i = choose|i: int| 0 <= i < es.len() && (#[trigger] es[i]).0 == k;
            assert(t[i - 1].0 == k);
        }
        if spec_find_key(es, k) >= 0 {
            let i = spec_find_key(es, k);
            assert(i == spec_find_key(t, k) + 1);
            assert forall|j: int| 0 <= j < i implies (#[trigger] es[j]).0 != k by {
                if j > 0 {
                    assert(es[j] == t[j - 1]);
                }
            }
        }
    }
}

/// The entries after storing `k -> v`: the value of the first entry with key
/// `k` is replaced, or a new entry is appended when the key is fresh.
pub open spec fn spec_upsert(
    es: Seq<(Seq<char>, Seq<char>)>,
    k: Seq<char>,
    v: Seq<char>,
) -> Seq<(Seq<char>, Seq<char>)> {
    let i = spec_find_key(es, k);
    if i >= 0 {
        es.update(i, (k, v))
    } else {
        es.push((k, v))
    }
}

pub proof fn lemma_upsert_keeps_unique(es: Seq<(Seq<char>, Seq<char>)>, k: Seq<char>, v: Seq<char>)
    requires
        entry_keys_unique(es),
    ensures
        entry_keys_unique(spec_upsert(es, k, v)),
{
    lemma_find_key_props(es, k);
    let i = spec_find_key(es, k);
    if i >= 0 {
        assert forall|a: int, b: int|
            0 <= a < b < spec_upsert(es, k, v).len() implies (#[trigger] spec_upsert(es, k, v)[a]).0
            != (#[trigger] spec_upsert(es, k, v)[b]).0 by {
            assert(es[a].0 != es[b].0);
        }
    } else {
        assert forall|a: int, b: int|
            0 <= a < b < spec_upsert(es, k, v).len() implies (#[trigger] spec_upsert(es, k, v)[a]).0
            != (#[trigger] spec_upsert(es, k, v)[b]).0 by {
            if b < es.len() {
                assert(es[a].0 != es[b].0);
            } else {
                assert(spec_upsert(es, k, v)[b].0 == k);
                assert(es[a].0 != k);
            }
        }
    }
}

/// The entries with the first entry keyed `k` removed, when there is one.
pub open spec fn spec_remove_entry(
    es: Seq<(Seq<char>, Seq<char>)>,
    k: Seq<char>,
) -> Seq<(Seq<char>, Seq<char>)> {
    let i = spec_find_key(es, k);
    if i >= 0 {
        es.remove(i)
    } else {
        es
    }
}

/// The one-line file form of a section header, without the newline.
pub open spec fn spec_header_line(name: Seq<char>) -> Seq<char> {
    seq!['<'] + name + seq!['>']
}

/// `s` with one trailing newline removed, if it has one.
pub open spec fn spec_strip_newline(s: Seq<char>) -> Seq<char> {
    if s.len() > 0 && s[s.len() - 1] == '\n' {
        s.drop_last()
    } else {
        s
    }
}

/// The section name of a header line: a line is a header exactly when it
/// starts with `<`, contains `>` and holds no tab; the name is everything
/// between the first and the last character.
pub open spec fn spec_parse_header(line: Seq<char>) -> Option<Seq<char>> {
    if line.len() >= 2 && line[0] == '<' && line.contains('>') && !line.contains('\t') {
        Some(line.subrange(1, line.len() - 1))
    } else {
        None
    }
}

/// Decoding the header line of any tab-free name gives the name back.  Every
/// name the store accepts is of this kind, since no tab is alphabetic.
pub proof fn lemma_header_round_trip(name: Seq<char>)
    requires
        !name.contains('\t'),
    ensures
        spec_parse_header(spec_header_line(name)) == Some(name),
{
    let line = spec_header_line(name);
    assert(line[0] == '<');
    assert(line[line.len() - 1] == '>');
    assert(line.contains('>'));
    if line.contains('\t') {
        let k = choose|k: int| 0 <= k < line.len() && line[k] == '\t';
        assert(name[k - 1] == '\t');
        assert(name.contains('\t'));
    }
    assert(line.subrange(1, line.len() - 1) =~= name);
}

/// A named section of key-value entries, kept in the order of their lines in
/// the backing file.
pub struct Section {
    /// name of the Section
    pub name: String,
    /// the key-value pairs that make up the entries
    pub data: Vec<(String, String)>,
}

impl View for Section {
    type V = SectionV;

    open spec fn view(&self) -> SectionV {
        SectionV { name: self.name@, entries: entries_view(self.data@) }
    }
}

impl Section {
    /// The section's keys are pairwise distinct.
    pub open spec fn wf(&self) -> bool {
        entry_keys_unique(self@.entries)
    }

    /// Returns an empty Section with the name given.
    pub fn new(name: &str) -> (s: Section)
        ensures
            s@.name == name@,
            s@.entries == Seq::<(Seq<char>, Seq<char>)>::empty(),
            s.wf(),
    {
        let s = Section { name: name.to_owned(), data: Vec::new() };
        proof {
            assert(s@.entries =~= Seq::<(Seq<char>, Seq<char>)>::empty());
        }
        s
    }

    /// The header line for `section_name` as it appears in the data file,
    /// newline included.
    pub fn build_section_string(section_name: &str) -> (r: String)
        ensures
            r@ == spec_header_line(section_name@).push('\n'),
    {
        let mut r = String::new();
        r.append("<");
        r.append(section_name);
        r.append(">\n");
        proof {
            reveal_strlit("<");
            reveal_strlit(">\n");
            assert(r@ =~= spec_header_line(section_name@).push('\n'));
        }
        r
    }

    /// The name of a section from its header line, `None` when the line is
    /// no header.  A trailing newline is ignored.
    pub fn get_section_name_from_string(line: &str) -> (r: Option<&str>)
        ensures
            match r {
                Some(name) => spec_parse_header(spec_strip_newline(line@)) == Some(name@),
                None => spec_parse_header(spec_strip_newline(line@)) is None,
            },
    {
        let len = line.unicode_len();
        let end = if len > 0 && line.get_char(len - 1) == '\n' {
            len - 1
        } else {
            len
        };
        proof {
            assert(spec_strip_newline(line@) =~= line@.subrange(0, end as int));
        }
        let ghost stripped = line@.subrange(0, end as int);
        if end < 2 {
            return None;
        }
        if line.get_char(0) != '<' {
            assert(stripped[0] != '<');
            return None;
        }
        let mut has_gt = false;
        let mut has_tab = false;
        let mut i: usize = 0;
        while i < end
            invariant
                0 <= i <= end <= len,
                len == line@.len(),
                stripped =~= line@.subrange(0, end as int),
                has_gt <==> exists|j: int| 0 <= j < i && line@[j] == '>',
                has_tab <==> exists|j: int| 0 <= j < i && line@[j] == '\t',
            decreases end - i,
        {
            let c = line.get_char(i);
            if c == '>' {
                has_gt = true;
            }
            if c == '\t' {
                has_tab = true;
            }
            i += 1;
        }
        proof {
            assert(has_gt <==> stripped.contains('>')) by {
                if has_gt {
                    let j = choose|j: int| 0 <= j < end && line@[j] == '>';
                    assert(stripped[j] == '>');
                }
                if stripped.contains('>') {
                    let j = choose|j: int| 0 <= j < stripped.len() && stripped[j] == '>';
                    assert(line@[j] == '>');
                }
            }
            assert(has_tab <==> stripped.contains('\t')) by {
                if has_tab {
                    let j = choose|j: int| 0 <= j < end && line@[j] == '\t';
                    assert(stripped[j] == '\t');
                }
                if stripped.contains('\t') {
                    let j = choose|j: int| 0 <= j < stripped.len() && stripped[j] == '\t';
                    assert(line@[j] == '\t');
                }
            }
        }
        if !has_gt || has_tab {
            return None;
        }
        let name = line.substring_char(1, end - 1);
        proof {
            assert(name@ =~= stripped.subrange(1, stripped.len() - 1));
        }
        Some(name)
    }

    /// Stores the entry `key -> value`: overwrites the value when the key is
    /// already present, else appends the entry.
    pub fn add_entry(&mut self, key: &str, value: &str)
        requires
            old(self).wf(),
        ensures
            final(self)@.name == old(self)@.name,
            final(self)@.entries == spec_upsert(old(self)@.entries, key@, value@),
            final(self).wf(),
    {
        let n = self.data.len();
        let mut i: usize = 0;
        while i < n
            invariant
                0 <= i <= n,
                *self == *old(self),
                self.wf(),
                n == self.data.len(),
                forall|j: int| 0 <= j < i ==> (#[trigger] entries_view(self.data@)[j]).0 != key@,
            decreases n - i,
        {
            if str_eq(self.data[i].0.as_str(), key) {
                proof {
                    lemma_find_key_at(entries_view(self.data@), key@, i as int);
                    lemma_upsert_keeps_unique(self@.entries, key@, value@);
                }
                let pair = (key.to_owned(), value.to_owned());
                self.data.remove(i);
                self.data.insert(i, pair);
                proof {
                    assert(entries_view(self.data@) =~= spec_upsert(
                        entries_view(old(self).data@),
                        key@,
                        value@,
                    ));
                }
                return ;
            }
            i += 1;
        }
        proof {
            let es = entries_view(self.data@);
            lemma_find_key_props(es, key@);
            if spec_find_key(es, key@) >= 0 {
                assert(es[spec_find_key(es, key@)].0 == key@);
            }
            assert(spec_find_key(es, key@) < 0);
        }
        self.data.push((key.to_owned(), value.to_owned()));
        proof {
            assert(entries_view(self.data@) =~= spec_upsert(
                entries_view(old(self).data@),
                key@,
                value@,
            ));
        }
    }

    /// Index of the first entry keyed `key`, or `None` when the key is
    /// absent.
    pub(crate) fn find_entry_idx(&self, key: &str) -> (r: Option<usize>)
        ensures
            match r {
                Some(i) => 0 <= i < self@.entries.len() && spec_find_key(self@.entries, key@)
                    == i as int,
                None => spec_find_key(self@.entries, key@) < 0,
            },
    {
        let n = self.data.len();
        let mut i: usize = 0;
        while i < n
            invariant
                0 <= i <= n,
                n == self.data.len(),
                forall|j: int| 0 <= j < i ==> (#[trigger] entries_view(self.data@)[j]).0 != key@,
            decreases n - i,
        {
            if str_eq(self.data[i].0.as_str(), key) {
                proof {
                    lemma_find_key_at(entries_view(self.data@), key@, i as int);
                }
                return Some(i);
            }
            i += 1;
        }
        proof {
            let es = entries_view(self.data@);
            lemma_find_key_props(es, key@);
            if spec_find_key(es, key@) >= 0 {
                assert(es[spec_find_key(es, key@)].0 == key@);
            }
        }
        None
    }

    /// The value stored under `key`, or `None` when the key is absent.
    pub fn get(&self, key: &str) -> (r: Option<&str>)
        ensures
            match r {
                Some(v) => {
                    let i = spec_find_key(self@.entries, key@);
                    i >= 0 && v@ == self@.entries[i].1
                },
                None => spec_find_key(self@.entries, key@) < 0,
            },
    {
        let n = self.data.len();
        let mut i: usize = 0;
        while i < n
            invariant
                0 <= i <= n,
                n == self.data.len(),
                forall|j: int| 0 <= j < i ==> (#[trigger] entries_view(self.data@)[j]).0 != key@,
            decreases n - i,
        {
            if str_eq(self.data[i].0.as_str(), key) {
                proof {
                    lemma_find_key_at(entries_view(self.data@), key@, i as int);
                }
                return Some(self.data[i].1.as_str());
            }
            i += 1;
        }
        proof {
            lemma_find_key_props(entries_view(self.data@), key@);
        }
        None
    }
}

/// When the first `i` keys differ from `k` and entry `i` carries `k`, the
/// first entry with key `k` is entry `i`.
pub proof fn lemma_find_key_at(es: Seq<(Seq<char>, Seq<char>)>, k: Seq<char>, i: int)
    requires
        0 <= i < es.len(),
        es[i].0 == k,
        forall|j: int| 0 <= j < i ==> (#[trigger] es[j]).0 != k,
    ensures
        spec_find_key(es, k) == i,
    decreases es.len(),
{
    if i > 0 {
        lemma_find_key_at(es.drop_first(), k, i - 1);
    }
}

} // verus!
