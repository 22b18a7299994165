//! Reading the output of `uci show`: decoding quoted option values and
//! grouping `package.section.option=value` lines into sections.
use vstd::prelude::*;

use crate::assoc::{
    assoc_find,
    assoc_view,
    keys_distinct,
    lemma_assoc_at,
    lemma_assoc_congruent,
    lemma_assoc_push,
    lemma_assoc_update,
};
use crate::config::{copy_range, texts};
use crate::text::{
    ascii_ws,
    chars_of,
    find_char,
    first_pos,
    has_prefix,
    is_ascii_ws,
    lines,
    lines_of,
    push_char,
    push_chars,
    same_chars,
    starts_with,
    string_from,
    trim,
    trimmed,
    views,
};

verus! {

// ---------------------------------------------------------------------------
// Option values
// ---------------------------------------------------------------------------

/// Where the value decoder stands between two characters.
#[derive(PartialEq, Eq, Structural, Clone, Copy)]
pub enum DecodeMode {
    /// Outside quotes.
    Plain,
    /// Inside single quotes.
    Single,
    /// Inside double quotes.
    Double,
    /// After a backslash outside quotes.
    EscapePlain,
    /// After a backslash inside double quotes.
    EscapeDouble,
}

/// The values decoded so far, the value being read, the mode, and whether a
/// value has started.
pub struct DecodeState {
    pub values: Seq<Seq<char>>,
    pub current: Seq<char>,
    pub mode: DecodeMode,
    pub started: bool,
}

pub open spec fn decode_init() -> DecodeState {
    DecodeState { values: Seq::empty(), current: Seq::empty(), mode: DecodeMode::Plain, started: false }
}

/// One character of a UCI value: ASCII whitespace outside quotes ends a value;
/// single quotes take everything up to the next single quote literally; double
/// quotes take everything up to the next double quote, with a backslash taking
/// the next character literally; outside quotes a backslash takes the next
/// character literally.
pub open spec fn decode_step(st: DecodeState, c: char) -> DecodeState {
    match st.mode {
        DecodeMode::Single => if c == '\'' {
            DecodeState { values: st.values, current: st.current, mode: DecodeMode::Plain, started: st.started }
        } else {
            DecodeState { values: st.values, current: st.current.push(c), mode: st.mode, started: st.started }
        },
        DecodeMode::Double => if c == '"' {
            DecodeState { values: st.values, current: st.current, mode: DecodeMode::Plain, started: st.started }
        } else if c == '\\' {
            DecodeState { values: st.values, current: st.current, mode: DecodeMode::EscapeDouble, started: st.started }
        } else {
            DecodeState { values: st.values, current: st.current.push(c), mode: st.mode, started: st.started }
        },
        DecodeMode::EscapeDouble => DecodeState {
            values: st.values,
            current: st.current.push(c),
            mode: DecodeMode::Double,
            started: st.started,
        },
        DecodeMode::EscapePlain => DecodeState {
            values: st.values,
            current: st.current.push(c),
            mode: DecodeMode::Plain,
            started: st.started,
        },
        DecodeMode::Plain => if is_ascii_ws(c) {
            if st.started {
                DecodeState {
                    values: st.values.push(st.current),
                    current: Seq::empty(),
                    mode: DecodeMode::Plain,
                    started: false,
                }
            } else {
                st
            }
        } else if c == '\'' {
            DecodeState { values: st.values, current: st.current, mode: DecodeMode::Single, started: true }
        } else if c == '"' {
            DecodeState { values: st.values, current: st.current, mode: DecodeMode::Double, started: true }
        } else if c == '\\' {
            DecodeState { values: st.values, current: st.current, mode: DecodeMode::EscapePlain, started: true }
        } else {
            DecodeState { values: st.values, current: st.current.push(c), mode: DecodeMode::Plain, started: true }
        },
    }
}

pub open spec fn decode_run(s: Seq<char>) -> DecodeState
    decreases s.len(),
{
    if s.len() == 0 {
        decode_init()
    } else {
        decode_step(decode_run(s.drop_last()), s.last())
    }
}

/// The values of a UCI option as `uci show` prints them, e.g. `'wg0' 'tun0'`;
/// a blank value gives one empty value.
pub open spec fn spec_decode(value: Seq<char>) -> Seq<Seq<char>> {
    let t = trim(value);
    let st = decode_run(t);
    let vals = if st.started {
        st.values.push(st.current)
    } else {
        st.values
    };
    if vals.len() > 0 {
        vals
    } else {
        seq![t]
    }
}



/// Decodes the value part of a `uci show` line into its list of values.
pub fn decode_uci_values(value: &str) -> (r: Vec<String>)
    ensures
        texts(r@) == spec_decode(value@),
        r@.len() >= 1,
{
    let v = chars_of(value);
    let t = trimmed(v.as_slice());
    let mut values: Vec<String> = Vec::new();
    let mut current: Vec<char> = Vec::new();
    let mut mode = DecodeMode::Plain;
    let mut started = false;
    for i in 0..t.len()
        invariant
            ({
                let st = decode_run(t@.take(i as int));
                &&& texts(values@) == st.values
                &&& current@ == st.current
                &&& mode == st.mode
                &&& started == st.started
            }),
    {
        let c = t[i];
        assert(t@.take(i + 1).drop_last() == t@.take(i as int));
        assert(t@.take(i + 1).last() == c);
        match mode {
            DecodeMode::Single => {
                if c == '\'' {
                    mode = DecodeMode::Plain;
                } else {
                    current.push(c);
                }
            },
            DecodeMode::Double => {
                if c == '"' {
                    mode = DecodeMode::Plain;
                } else if c == '\\' {
                    mode = DecodeMode::EscapeDouble;
                } else {
                    current.push(c);
                }
            },
            DecodeMode::EscapeDouble => {
                current.push(c);
                mode = DecodeMode::Double;
            },
            DecodeMode::EscapePlain => {
                current.push(c);
                mode = DecodeMode::Plain;
            },
            DecodeMode::Plain => {
                if ascii_ws(c) {
                    if started {
                        let done = string_from(current.as_slice());
                        values.push(done);
                        current = Vec::new();
                        started = false;
                        assert(texts(values@) == texts(values@.drop_last()).push(done@));
                    }
                } else if c == '\'' {
                    mode = DecodeMode::Single;
                    started = true;
                } else if c == '"' {
                    mode = DecodeMode::Double;
                    started = true;
                } else if c == '\\' {
                    mode = DecodeMode::EscapePlain;
                    started = true;
                } else {
                    current.push(c);
                    started = true;
                }
            },
        }
    }
    assert(t@.take(t.len() as int) == t@);
    if started {
        let last = string_from(current.as_slice());
        values.push(last);
        assert(texts(values@) == texts(values@.drop_last()).push(last@));
    }
    if values.len() > 0 {
        return values;
    }
    let whole = string_from(t.as_slice());
    let mut single: Vec<String> = Vec::new();
    single.push(whole);
    assert(texts(single@) == seq![whole@]);
    single
}

// ---------------------------------------------------------------------------
// Sections
// ---------------------------------------------------------------------------

/// One section of a UCI package: its name, its type, and its options, each
/// both as the values joined by a space and as the list of values.
pub struct UciSection {
    pub name: String,
    pub section_type: Option<String>,
    pub options: Vec<(String, String)>,
    pub lists: Vec<(String, Vec<String>)>,
}

pub struct SectionView {
    pub name: Seq<char>,
    pub section_type: Option<Seq<char>>,
    pub options: Map<Seq<char>, Seq<char>>,
    pub lists: Map<Seq<char>, Seq<Seq<char>>>,
}

pub open spec fn section_views(s: Seq<UciSection>) -> Seq<SectionView> {
    s.map_values(|x: UciSection| x@)
}

pub open spec fn sections_well_formed(s: Seq<UciSection>) -> bool {
    forall|i: int| 0 <= i < s.len() ==> (#[trigger] s[i]).well_formed()
}

impl View for UciSection {
    type V = SectionView;

    open spec fn view(&self) -> SectionView {
        SectionView {
            name: self.name@,
            section_type: crate::config::opt_text(self.section_type),
            options: assoc_view(self.options@).map_values(|v: String| v@),
            lists: assoc_view(self.lists@).map_values(|v: Vec<String>| texts(v@)),
        }
    }
}

pub open spec fn empty_section(name: Seq<char>) -> SectionView {
    SectionView {
        name: name,
        section_type: None,
        options: Map::empty(),
        lists: Map::empty(),
    }
}

impl UciSection {
    pub open spec fn well_formed(&self) -> bool {
        keys_distinct(self.options@) && keys_distinct(self.lists@)
    }

    /// An empty section named `name`.
    pub fn named(name: String) -> (r: UciSection)
        ensures
            r.well_formed(),
            r@ == empty_section(name@),
    {
        let r = UciSection { name, section_type: None, options: Vec::new(), lists: Vec::new() };
        assert(r@.options =~= Map::<Seq<char>, Seq<char>>::empty());
        assert(r@.lists =~= Map::<Seq<char>, Seq<Seq<char>>>::empty());
        r
    }

    /// The value of option `key`.
    pub fn option(&self, key: &[char]) -> (r: Option<&String>)
        requires
            self.well_formed(),
        ensures
            r matches Some(v) ==> self@.options.contains_key(key@) && self@.options[key@] == v@,
            r is None ==> !self@.options.contains_key(key@),
    {
        match assoc_find(&self.options, key) {
            Some(j) => {
                proof {
                    lemma_assoc_at(self.options@, j as int);
                }
                Some(&self.options[j].1)
            },
            None => None,
        }
    }

    /// The list of values of option `key`.
    pub fn list(&self, key: &[char]) -> (r: Option<&Vec<String>>)
        requires
            self.well_formed(),
        ensures
            r matches Some(v) ==> self@.lists.contains_key(key@) && self@.lists[key@] == texts(v@),
            r is None ==> !self@.lists.contains_key(key@),
    {
        match assoc_find(&self.lists, key) {
            Some(j) => {
                proof {
                    lemma_assoc_at(self.lists@, j as int);
                }
                Some(&self.lists[j].1)
            },
            None => None,
        }
    }

    /// Sets option `key` to `value`.
    pub fn set_option(&mut self, key: &[char], value: String)
        requires
            old(self).well_formed(),
        ensures
            final(self).well_formed(),
            final(self)@ == (SectionView { options: old(self)@.options.insert(key@, value@), ..old(self)@ }),
    {
        let k = string_from(key);
        let ghost vv = value@;
        let ghost before = self.options@;
        match assoc_find(&self.options, key) {
            Some(j) => {
                self.options[j] = (k, value);
                proof {
                    lemma_assoc_update(before, j as int, k, value);
                }
            },
            None => {
                proof {
                    lemma_assoc_push(before, k, value);
                }
                self.options.push((k, value));
            },
        }
        assert(assoc_view(self.options@).map_values(|v: String| v@) =~= assoc_view(before).map_values(
            |v: String| v@,
        ).insert(key@, vv));
    }

    /// Appends `values` to the list of option `key`.
    pub fn extend_list(&mut self, key: &[char], values: &Vec<String>)
        requires
            old(self).well_formed(),
        ensures
            final(self).well_formed(),
            final(self)@ == (SectionView {
                lists: old(self)@.lists.insert(
                    key@,
                    (if old(self)@.lists.contains_key(key@) {
                        old(self)@.lists[key@]
                    } else {
                        Seq::empty()
                    }) + texts(values@),
                ),
                ..old(self)@
            }),
    {
        let k = string_from(key);
        let ghost before = self.lists@;
        match assoc_find(&self.lists, key) {
            Some(j) => {
                proof {
                    lemma_assoc_at(before, j as int);
                }
                let mut merged = clone_strings(&self.lists[j].1);
                append_strings(&mut merged, values);
                let ghost mv = texts(merged@);
                self.lists[j] = (k, merged);
                proof {
                    lemma_assoc_update(before, j as int, k, merged);
                }
                assert(assoc_view(self.lists@).map_values(|v: Vec<String>| texts(v@)) =~= assoc_view(
                    before,
                ).map_values(|v: Vec<String>| texts(v@)).insert(key@, mv));
            },
            None => {
                let merged = clone_strings(values);
                proof {
                    lemma_assoc_push(before, k, merged);
                }
                let ghost mv = texts(merged@);
                self.lists.push((k, merged));
                assert(Seq::<Seq<char>>::empty() + texts(values@) == texts(values@));
                assert(assoc_view(self.lists@).map_values(|v: Vec<String>| texts(v@)) =~= assoc_view(
                    before,
                ).map_values(|v: Vec<String>| texts(v@)).insert(key@, mv));
            },
        }
    }

    /// Sets the section's type.
    pub fn set_type(&mut self, t: String)
        ensures
            final(self)@ == (SectionView { section_type: Some(t@), ..old(self)@ }),
            final(self).well_formed() == old(self).well_formed(),
    {
        self.section_type = Some(t);
    }
}

/// A copy of a list of strings.
pub fn clone_strings(v: &Vec<String>) -> (r: Vec<String>)
    ensures
        r@ == v@,
        texts(r@) == texts(v@),
{
    let mut r: Vec<String> = Vec::new();
    for i in 0..v.len()
        invariant
            r@ == v@.take(i as int),
    {
        r.push(v[i].clone());
        assert(v@.take(i + 1) == v@.take(i as int).push(v@[i as int]));
    }
    assert(v@.take(v.len() as int) == v@);
    r
}

/// A copy of a section.
pub fn copy_section(s: &UciSection) -> (r: UciSection)
    requires
        s.well_formed(),
    ensures
        r@ == s@,
        r.well_formed(),
{
    let mut options: Vec<(String, String)> = Vec::new();
    for i in 0..s.options.len()
        invariant
            options@ == s.options@.take(i as int),
    {
        let pair = (s.options[i].0.clone(), s.options[i].1.clone());
        options.push(pair);
        assert(s.options@.take(i + 1) == s.options@.take(i as int).push(s.options@[i as int]));
    }
    let mut lists: Vec<(String, Vec<String>)> = Vec::new();
    for i in 0..s.lists.len()
        invariant
            lists@.len() == i,
            forall|j: int|
                0 <= j < i ==> (#[trigger] lists@[j]).0 == s.lists@[j].0 && lists@[j].1@ == s.lists@[j].1@,
    {
        let pair = (s.lists[i].0.clone(), clone_strings(&s.lists[i].1));
        lists.push(pair);
    }
    assert(s.options@.take(s.options.len() as int) == s.options@);
    proof {
        lemma_assoc_congruent(s.lists@, lists@, |v: Vec<String>| texts(v@));
    }
    let section_type = match &s.section_type {
        Some(t) => Some(t.clone()),
        None => None,
    };
    UciSection { name: s.name.clone(), section_type, options, lists }
}

/// Appends copies of `more` to `v`.
pub fn append_strings(v: &mut Vec<String>, more: &Vec<String>)
    ensures
        texts(final(v)@) == texts(old(v)@) + texts(more@),
{
    let ghost start = texts(v@);
    for i in 0..more.len()
        invariant
            texts(v@) == start + texts(more@.take(i as int)),
    {
        let ghost prev = v@;
        let item = more[i].clone();
        v.push(item);
        assert(texts(v@) == texts(prev).push(item@));
        assert(texts(more@.take(i + 1)) == texts(more@.take(i as int)).push(more@[i as int]@));
    }
    assert(more@.take(more.len() as int) == more@);
}

/// Values joined by a separator.
pub open spec fn join(parts: Seq<Seq<char>>, sep: Seq<char>) -> Seq<char>
    decreases parts.len(),
{
    if parts.len() == 0 {
        Seq::empty()
    } else if parts.len() == 1 {
        parts[0]
    } else {
        join(parts.drop_last(), sep) + sep + parts.last()
    }
}

/// `[String]::join` with a one-character separator.
pub fn join_strings(parts: &Vec<String>, sep: char) -> (r: String)
    ensures
        r@ == join(texts(parts@), seq![sep]),
{
    let mut r = String::new();
    for i in 0..parts.len()
        invariant
            r@ == join(texts(parts@.take(i as int)), seq![sep]),
    {
        let ghost prev = texts(parts@.take(i as int));
        assert(texts(parts@.take(i + 1)).drop_last() == prev);
        assert(texts(parts@.take(i + 1)).last() == parts@[i as int]@);
        if i > 0 {
            push_char(&mut r, sep);
        }
        let piece = chars_of(parts[i].as_str());
        push_chars(&mut r, piece.as_slice());
        if i == 0 {
            assert(texts(parts@.take(1)).len() == 1);
            assert(Seq::<char>::empty() + piece@ == piece@);
        }
    }
    assert(parts@.take(parts.len() as int) == parts@);
    r
}

/// Index of the last section named `name` among the first `j`.
pub open spec fn index_before(secs: Seq<SectionView>, name: Seq<char>, j: int) -> Option<int>
    decreases j,
{
    if j <= 0 || j > secs.len() {
        None
    } else if secs[j - 1].name == name {
        Some(j - 1)
    } else {
        index_before(secs, name, j - 1)
    }
}

pub open spec fn section_index(secs: Seq<SectionView>, name: Seq<char>) -> Option<int> {
    index_before(secs, name, secs.len() as int)
}

pub proof fn lemma_index_before(secs: Seq<SectionView>, name: Seq<char>, j: int)
    requires
        0 <= j <= secs.len(),
    ensures
        index_before(secs, name, j) matches Some(i) ==> 0 <= i < j && secs[i].name == name,
    decreases j,
{
    if j > 0 && secs[j - 1].name != name {
        lemma_index_before(secs, name, j - 1);
    }
}

/// The section after one `package.section.option=value` line has been read
/// into it: the option's list grows by the decoded values and the option
/// becomes those values joined by a space.  A `package.section=type` line
/// sets the type.
pub open spec fn apply_assignment(sec: SectionView, option: Option<Seq<char>>, values: Seq<Seq<char>>) -> SectionView {
    match option {
        Some(o) => SectionView {
            lists: sec.lists.insert(
                o,
                (if sec.lists.contains_key(o) {
                    sec.lists[o]
                } else {
                    Seq::empty()
                }) + values,
            ),
            options: sec.options.insert(o, join(values, seq![' '])),
            ..sec
        },
        None => SectionView { section_type: Some(values[0]), ..sec },
    }
}

/// The sections after one more line of `uci show` output.
pub open spec fn line_step(secs: Seq<SectionView>, prefix: Seq<char>, line: Seq<char>) -> Seq<SectionView> {
    match first_pos(line, '=') {
        None => secs,
        Some(p) => {
            let key = line.take(p);
            let value = line.skip(p + 1);
            if !starts_with(key, prefix) {
                secs
            } else {
                let rest = key.skip(prefix.len() as int);
                let values = spec_decode(value);
                let name = match first_pos(rest, '.') {
                    Some(q) => rest.take(q),
                    None => rest,
                };
                let option = match first_pos(rest, '.') {
                    Some(q) => Some(rest.skip(q + 1)),
                    None => None,
                };
                match section_index(secs, name) {
                    Some(i) => secs.update(i, apply_assignment(secs[i], option, values)),
                    None => secs.push(apply_assignment(empty_section(name), option, values)),
                }
            }
        },
    }
}

pub open spec fn parse_lines(prefix: Seq<char>, ls: Seq<Seq<char>>) -> Seq<SectionView>
    decreases ls.len(),
{
    if ls.len() == 0 {
        Seq::empty()
    } else {
        line_step(parse_lines(prefix, ls.drop_last()), prefix, ls.last())
    }
}

/// The sections of package `package` in the output of `uci show`, in the order
/// in which they first appear; lines of other packages and lines without `=`
/// are skipped.
pub open spec fn spec_parse_uci(package: Seq<char>, output: Seq<char>) -> Seq<SectionView> {
    parse_lines(package.push('.'), lines_of(output))
}

fn apply_to(sec: &mut UciSection, option: &Option<Vec<char>>, values: &Vec<String>)
    requires
        old(sec).well_formed(),
        values@.len() >= 1,
    ensures
        final(sec).well_formed(),
        final(sec)@ == apply_assignment(
            old(sec)@,
            match option {
                Some(o) => Some(o@),
                None => None,
            },
            texts(values@),
        ),
{
    match option {
        Some(o) => {
            sec.extend_list(o.as_slice(), values);
            let joined = join_strings(values, ' ');
            sec.set_option(o.as_slice(), joined);
        },
        None => {
            let first = values[0].clone();
            sec.set_type(first);
        },
    }
}

fn find_section(secs: &Vec<UciSection>, name: &[char]) -> (r: Option<usize>)
    ensures
        r matches Some(i) ==> section_index(section_views(secs@), name@) == Some(i as int),
        r is None ==> section_index(section_views(secs@), name@) is None,
{
    let ghost sv = section_views(secs@);
    let mut j = secs.len();
    while j > 0
        invariant
            j <= secs.len(),
            sv == section_views(secs@),
            index_before(sv, name@, j as int) == section_index(sv, name@),
        decreases j,
    {
        let n = chars_of(secs[j - 1].name.as_str());
        assert(sv[j - 1].name == secs@[j - 1].name@);
        if same_chars(n.as_slice(), name) {
            return Some(j - 1);
        }
        j -= 1;
    }
    None
}

/// Reads the sections of package `package` from the output of `uci show`.
pub fn parse_uci_sections(package: &str, output: &str) -> (r: Vec<UciSection>)
    ensures
        section_views(r@) == spec_parse_uci(package@, output@),
        sections_well_formed(r@),
{
    let mut prefix = chars_of(package);
    prefix.push('.');
    let out = chars_of(output);
    let ls = lines(out.as_slice());
    let mut sections: Vec<UciSection> = Vec::new();
    let ghost lv = views(ls@);
    for i in 0..ls.len()
        invariant
            lv == views(ls@),
            lv == lines_of(output@),
            prefix@ == package@.push('.'),
            section_views(sections@) == parse_lines(prefix@, lv.take(i as int)),
            sections_well_formed(sections@),
    {
        assert(lv.take(i + 1).drop_last() == lv.take(i as int));
        assert(lv.take(i + 1).last() == ls@[i as int]@);
        let line = &ls[i];
        let ghost before = section_views(sections@);
        match find_char(line.as_slice(), '=') {
            None => {},
            Some(p) => {
                let key = copy_range(line.as_slice(), 0, p);
                let value = copy_range(line.as_slice(), p + 1, line.len());
                assert(key@ == line@.take(p as int));
                assert(value@ == line@.skip(p + 1));
                if has_prefix(key.as_slice(), prefix.as_slice()) {
                    let rest = copy_range(key.as_slice(), prefix.len(), key.len());
                    assert(rest@ == key@.skip(prefix@.len() as int));
                    let value_text = string_from(value.as_slice());
                    let values = decode_uci_values(value_text.as_str());
                    let (name, option) = match find_char(rest.as_slice(), '.') {
                        Some(q) => (
                            copy_range(rest.as_slice(), 0, q),
                            Some(copy_range(rest.as_slice(), q + 1, rest.len())),
                        ),
                        None => (copy_range(rest.as_slice(), 0, rest.len()), None),
                    };
                    assert(rest@.subrange(0, rest@.len() as int) == rest@);
                    assert(rest@.subrange(0, rest@.len() as int) == rest@);
                    match find_section(&sections, name.as_slice()) {
                        Some(idx) => {
                            proof {
                                lemma_index_before(before, name@, before.len() as int);
                            }
                            let ghost secs_before = sections@;
                            assert(secs_before[idx as int].well_formed());
                            let mut sec = sections.remove(idx);
                            apply_to(&mut sec, &option, &values);
                            let ghost sec_after = sec;
                            sections.insert(idx, sec);
                            assert(sections@ =~= secs_before.update(idx as int, sec_after));
                            assert(section_views(sections@) =~= before.update(idx as int, sec_after@));
                            assert forall|k: int| 0 <= k < sections@.len() implies (
                            #[trigger] sections@[k]).well_formed() by {
                                if k != idx {
                                    assert(sections@[k] == secs_before[k]);
                                }
                            }
                        },
                        None => {
                            let mut sec = UciSection::named(string_from(name.as_slice()));
                            apply_to(&mut sec, &option, &values);
                            sections.push(sec);
                            assert(section_views(sections@) =~= before.push(sec@));
                        },
                    }
                }
            },
        }
        assert(section_views(sections@) == line_step(before, prefix@, ls@[i as int]@));
    }
    assert(lv.take(ls.len() as int) == lv);
    sections
}

} // verus!
