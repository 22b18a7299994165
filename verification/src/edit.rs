//! Edits of the ASN list: removing duplicates, importing entries from text,
//! and deleting or retargeting entries in bulk.
//!
//! Each edit is computed here from the sections read from the configuration.
//! It returns the counts that the edit reports and the `asn` sections to write
//! back, with a flag that says whether they are to be written at all.
use vstd::prelude::*;

use crate::config::{
    is_type, normalize_asn, normalize_interface_value, opt_of, opt_text, option_str, section_has_type,
    spec_normalize_asn, spec_normalize_interface,
};
use crate::strset::{insert_sorted, lemma_push_to_set, lemma_sorted_set_len, search_sorted, sorted_strict};
use crate::config::texts;
use crate::text::{chars_of, owned, split_by, split_chars, string_from, trim, trimmed, views, Sep};
use crate::uci::{copy_section, empty_section, section_views, sections_well_formed, SectionView, UciSection};

verus! {

broadcast use vstd::seq::Seq::lemma_filter_push;

// ---------------------------------------------------------------------------
// Results and errors
// ---------------------------------------------------------------------------

/// Counts reported by removing duplicate and invalid ASN entries.
pub struct AsnDedupeResult {
    pub kept: usize,
    pub removed_duplicates: usize,
    pub removed_invalid: usize,
}

/// Counts reported by an import.
pub struct AsnImportResult {
    pub imported: usize,
    pub skipped_existing: usize,
    pub skipped_duplicate: usize,
    pub invalid: usize,
    pub deduplicated: usize,
    pub interface: String,
    pub asns: Vec<String>,
}

/// Counts reported by a bulk delete.
pub struct AsnBulkDeleteResult {
    pub requested: usize,
    pub deleted: usize,
    pub missing: usize,
}

/// Counts reported by a bulk change of target interface.
pub struct AsnBulkSetInterfaceResult {
    pub requested: usize,
    pub updated: usize,
    pub missing: usize,
    pub interface: String,
}

/// Why an edit of the ASN list was refused.
#[derive(Clone, Copy, Debug, PartialEq, Eq, Structural)]
pub enum EditError {
    /// The target interface is blank.
    TargetInterfaceRequired,
    /// The import text holds no valid ASN.
    NoValidImportEntries,
    /// The request holds no valid ASN.
    NoValidAsnEntries,
}

impl EditError {
    /// The message shown for the error.
    pub fn message(&self) -> (r: String)
        ensures
            r@ == edit_error_text(*self),
    {
        match self {
            EditError::TargetInterfaceRequired => owned("target interface is required"),
            EditError::NoValidImportEntries => owned("import data does not contain valid ASN entries"),
            EditError::NoValidAsnEntries => owned("no valid ASN entries were provided"),
        }
    }
}

pub open spec fn edit_error_text(e: EditError) -> Seq<char> {
    match e {
        EditError::TargetInterfaceRequired => "target interface is required"@,
        EditError::NoValidImportEntries => "import data does not contain valid ASN entries"@,
        EditError::NoValidAsnEntries => "no valid ASN entries were provided"@,
    }
}

// ---------------------------------------------------------------------------
// ASN sections
// ---------------------------------------------------------------------------

/// The sections of type `asn`, in order.
pub open spec fn asn_typed(secs: Seq<SectionView>) -> Seq<SectionView> {
    secs.filter(|s: SectionView| is_type(s, "asn"@))
}

/// The normalized ASN of a section, if its `asn` option normalizes.
pub open spec fn section_key(s: SectionView) -> Option<Seq<char>> {
    match opt_of(s, "asn"@) {
        Some(a) => spec_normalize_asn(a),
        None => None,
    }
}

/// The normalized ASN of a section.
pub fn section_asn(sec: &UciSection) -> (r: Option<String>)
    requires
        sec.well_formed(),
    ensures
        opt_text(r) == section_key(sec@),
{
    match option_str(sec, "asn") {
        Some(a) => normalize_asn(a),
        None => None,
    }
}

/// Copies of the sections of type `asn`, in order.
pub fn asn_sections(sections: &Vec<UciSection>) -> (r: Vec<UciSection>)
    requires
        sections_well_formed(sections@),
    ensures
        sections_well_formed(r@),
        section_views(r@) == asn_typed(section_views(sections@)),
{
    let ghost all = section_views(sections@);
    let mut r: Vec<UciSection> = Vec::new();
    for i in 0..sections.len()
        invariant
            all == section_views(sections@),
            sections_well_formed(sections@),
            sections_well_formed(r@),
            section_views(r@) == asn_typed(all.take(i as int)),
    {
        assert(all.take(i + 1) == all.take(i as int).push(sections@[i as int]@));
        if section_has_type(&sections[i], "asn") {
            let c = copy_section(&sections[i]);
            let ghost prev = r@;
            r.push(c);
            assert(section_views(r@) == section_views(prev).push(c@));
        }
    }
    assert(all.take(sections.len() as int) == all);
    r
}

// ---------------------------------------------------------------------------
// Removing duplicates
// ---------------------------------------------------------------------------

/// A kept section: its `asn` option normalized to `k`, its `interface` option
/// normalized (`wan` when blank or absent), and `enabled` set to `1` where absent.
pub open spec fn dedupe_section(s: SectionView, k: Seq<char>) -> SectionView {
    let o = s.options.insert("asn"@, k).insert(
        "interface"@,
        spec_normalize_interface(opt_of(s, "interface"@), "wan"@),
    );
    SectionView {
        options: if o.contains_key("enabled"@) {
            o
        } else {
            o.insert("enabled"@, "1"@)
        },
        ..s
    }
}

/// The state of a pass that removes duplicates: the kept sections, their
/// ASNs, and how many sections were dropped as duplicates and as invalid.
pub struct DedupeState {
    pub kept: Seq<SectionView>,
    pub keys: Set<Seq<char>>,
    pub duplicates: nat,
    pub invalid: nat,
}

/// Removing duplicates from `secs` (all of type `asn`), in order: a section
/// whose ASN does not normalize is dropped as invalid, one whose ASN was
/// already kept is dropped as a duplicate, any other is kept.
pub open spec fn dedupe_run(secs: Seq<SectionView>) -> DedupeState
    decreases secs.len(),
{
    if secs.len() == 0 {
        DedupeState { kept: Seq::empty(), keys: Set::empty(), duplicates: 0, invalid: 0 }
    } else {
        let st = dedupe_run(secs.drop_last());
        let s = secs.last();
        match section_key(s) {
            None => DedupeState { invalid: st.invalid + 1, ..st },
            Some(k) => if st.keys.contains(k) {
                DedupeState { duplicates: st.duplicates + 1, ..st }
            } else {
                DedupeState { kept: st.kept.push(dedupe_section(s, k)), keys: st.keys.insert(k), ..st }
            },
        }
    }
}

/// The planned result of removing duplicates: the counts, the `asn`
/// sections to keep, and whether the configuration is to be rewritten with them.
pub struct AsnDedupePlan {
    pub result: AsnDedupeResult,
    pub sections: Vec<UciSection>,
    pub rewrite: bool,
}

fn kept_section(sec: &UciSection, key: String) -> (r: UciSection)
    requires
        sec.well_formed(),
    ensures
        r.well_formed(),
        r@ == dedupe_section(sec@, key@),
{
    let iface = normalize_interface_value(option_str(sec, "interface"), "wan");
    let mut out = copy_section(sec);
    let asn_key = chars_of("asn");
    out.set_option(asn_key.as_slice(), key);
    let iface_key = chars_of("interface");
    out.set_option(iface_key.as_slice(), iface);
    let enabled_key = chars_of("enabled");
    if out.option(enabled_key.as_slice()).is_none() {
        out.set_option(enabled_key.as_slice(), owned("1"));
    }
    out
}

/// Removes duplicate and invalid entries from the `asn` sections among
/// `sections`: the first section of each ASN is kept, normalized.
pub fn dedupe_asn_config(sections: &Vec<UciSection>) -> (r: AsnDedupePlan)
    requires
        sections_well_formed(sections@),
    ensures
        sections_well_formed(r.sections@),
        section_views(r.sections@) == dedupe_run(asn_typed(section_views(sections@))).kept,
        r.result.kept == r.sections.len(),
        r.result.removed_duplicates == dedupe_run(asn_typed(section_views(sections@))).duplicates,
        r.result.removed_invalid == dedupe_run(asn_typed(section_views(sections@))).invalid,
        r.rewrite == (r.result.removed_duplicates > 0 || r.result.removed_invalid > 0),
        r.result.removed_duplicates + r.result.removed_invalid + r.result.kept <= sections.len(),
{
    let ghost all = section_views(sections@);
    let mut kept: Vec<UciSection> = Vec::new();
    let mut seen: Vec<Vec<char>> = Vec::new();
    let mut duplicates: usize = 0;
    let mut invalid: usize = 0;
    for i in 0..sections.len()
        invariant
            all == section_views(sections@),
            sections_well_formed(sections@),
            sections_well_formed(kept@),
            sorted_strict(views(seen@)),
            ({
                let st = dedupe_run(asn_typed(all.take(i as int)));
                &&& section_views(kept@) == st.kept
                &&& views(seen@).to_set() == st.keys
                &&& duplicates == st.duplicates
                &&& invalid == st.invalid
            }),
            duplicates + invalid + kept.len() <= i,
    {
        let ghost pre = asn_typed(all.take(i as int));
        assert(all.take(i + 1) == all.take(i as int).push(sections@[i as int]@));
        if section_has_type(&sections[i], "asn") {
            assert(asn_typed(all.take(i + 1)) == pre.push(sections@[i as int]@));
            assert(asn_typed(all.take(i + 1)).drop_last() == pre);
            match section_asn(&sections[i]) {
                None => {
                    invalid = invalid + 1;
                },
                Some(k) => {
                    let kc = chars_of(k.as_str());
                    match search_sorted(&seen, kc.as_slice()) {
                        Ok(pos) => {
                            assert(views(seen@)[pos as int] == kc@);
                            assert(views(seen@).to_set().contains(kc@));
                            duplicates = duplicates + 1;
                        },
                        Err(_) => {
                            assert(!views(seen@).to_set().contains(kc@));
                            let ghost prev = kept@;
                            let item = kept_section(&sections[i], k);
                            kept.push(item);
                            assert(section_views(kept@) == section_views(prev).push(item@));
                            insert_sorted(&mut seen, kc);
                        },
                    }
                },
            }
        } else {
            assert(asn_typed(all.take(i + 1)) == pre);
        }
    }
    assert(all.take(sections.len() as int) == all);
    let n = kept.len();
    let rewrite = duplicates > 0 || invalid > 0;
    AsnDedupePlan {
        result: AsnDedupeResult { kept: n, removed_duplicates: duplicates, removed_invalid: invalid },
        sections: kept,
        rewrite,
    }
}

// ---------------------------------------------------------------------------
// Importing
// ---------------------------------------------------------------------------

/// The pieces of a list of ASNs given as text: separated by `,`, `;` or ASCII
/// whitespace.
pub open spec fn request_pieces(text: Seq<char>) -> Seq<Seq<char>> {
    split_by(text, Sep::CommaSemicolonOrSpace)
}

/// What scanning an import text finds: the distinct ASNs in order of first
/// appearance, the count of repeated ones, and the count of tokens that are
/// not ASNs.
pub struct ImportScan {
    pub asns: Seq<Seq<char>>,
    pub duplicates: nat,
    pub invalid: nat,
}

/// Scanning the pieces of an import text: blank tokens are skipped.
pub open spec fn import_scan(pieces: Seq<Seq<char>>) -> ImportScan
    decreases pieces.len(),
{
    if pieces.len() == 0 {
        ImportScan { asns: Seq::empty(), duplicates: 0, invalid: 0 }
    } else {
        let st = import_scan(pieces.drop_last());
        let t = trim(pieces.last());
        if t.len() == 0 {
            st
        } else {
            match spec_normalize_asn(t) {
                None => ImportScan { invalid: st.invalid + 1, ..st },
                Some(a) => if st.asns.contains(a) {
                    ImportScan { duplicates: st.duplicates + 1, ..st }
                } else {
                    ImportScan { asns: st.asns.push(a), ..st }
                },
            }
        }
    }
}

/// The target interface of an import or retarget: trimmed.
pub open spec fn request_target(target: Seq<char>) -> Seq<char> {
    spec_normalize_interface(Some(target), Seq::empty())
}

/// A checked import request: the target interface and what the text holds.
pub struct ImportRequest {
    pub interface: String,
    pub asns: Vec<String>,
    pub skipped_duplicate: usize,
    pub invalid: usize,
}

/// Checks an import request: the target interface must not be blank, and
/// the text must hold at least one valid ASN.
pub fn prepare_import(text: &str, target_interface: &str) -> (r: Result<ImportRequest, EditError>)
    ensures
        r == Err::<ImportRequest, EditError>(EditError::TargetInterfaceRequired) <==> request_target(
            target_interface@,
        ).len() == 0,
        r == Err::<ImportRequest, EditError>(EditError::NoValidImportEntries) <==> (request_target(
            target_interface@,
        ).len() > 0 && import_scan(request_pieces(text@)).asns.len() == 0),
        r is Err ==> r == Err::<ImportRequest, EditError>(EditError::TargetInterfaceRequired) || r == Err::<
            ImportRequest,
            EditError,
        >(EditError::NoValidImportEntries),
        r matches Ok(q) ==> ({
            let scan = import_scan(request_pieces(text@));
            &&& q.interface@ == request_target(target_interface@)
            &&& texts(q.asns@) == scan.asns
            &&& q.skipped_duplicate == scan.duplicates
            &&& q.invalid == scan.invalid
        }),
{
    proof {
        reveal_strlit("");
    }
    let iface = normalize_interface_value(Some(target_interface), "");
    if iface.as_str().is_empty() {
        return Err(EditError::TargetInterfaceRequired);
    }
    let chars = chars_of(text);
    let pieces = split_chars(chars.as_slice(), Sep::CommaSemicolonOrSpace);
    let ghost ps = views(pieces@);
    let mut asns: Vec<String> = Vec::new();
    let mut seen: Vec<Vec<char>> = Vec::new();
    let mut duplicates: usize = 0;
    let mut invalid: usize = 0;
    for j in 0..pieces.len()
        invariant
            ps == views(pieces@),
            ps == request_pieces(text@),
            iface@ == request_target(target_interface@),
            iface@.len() > 0,
            sorted_strict(views(seen@)),
            texts(asns@) == import_scan(ps.take(j as int)).asns,
            views(seen@).to_set() == import_scan(ps.take(j as int)).asns.to_set(),
            duplicates == import_scan(ps.take(j as int)).duplicates,
            invalid == import_scan(ps.take(j as int)).invalid,
            duplicates + invalid + asns.len() <= j,
    {
        assert(ps.take(j + 1).drop_last() == ps.take(j as int));
        assert(ps.take(j + 1).last() == pieces@[j as int]@);
        let t = trimmed(pieces[j].as_slice());
        if t.len() > 0 {
            let token = string_from(t.as_slice());
            match normalize_asn(token.as_str()) {
                None => {
                    invalid = invalid + 1;
                },
                Some(a) => {
                    let ghost st = import_scan(ps.take(j as int));
                    assert(trim(ps.take(j + 1).last()) == t@);
                    assert(spec_normalize_asn(t@) == Some(a@));
                    let ac = chars_of(a.as_str());
                    let ghost before = views(seen@).to_set();
                    assert(before.contains(a@) == st.asns.contains(a@));
                    let ghost prev = asns@;
                    let added = insert_sorted(&mut seen, ac);
                    if added {
                        assert(import_scan(ps.take(j + 1)).asns == st.asns.push(a@));
                        asns.push(a);
                        assert(texts(asns@) == texts(prev).push(a@));
                        proof {
                            lemma_push_to_set(texts(prev), a@);
                        }
                    } else {
                        assert(before.contains(a@));
                        duplicates = duplicates + 1;
                    }
                },
            }
        }
    }
    assert(ps.take(pieces.len() as int) == ps);
    if asns.len() == 0 {
        return Err(EditError::NoValidImportEntries);
    }
    Ok(ImportRequest { interface: iface, asns, skipped_duplicate: duplicates, invalid })
}

/// The ASNs held by sections.
pub open spec fn keys_of(secs: Seq<SectionView>) -> Set<Seq<char>>
    decreases secs.len(),
{
    if secs.len() == 0 {
        Set::empty()
    } else {
        let k = keys_of(secs.drop_last());
        match section_key(secs.last()) {
            Some(a) => k.insert(a),
            None => k,
        }
    }
}

/// The ASNs of `asns` that an import adds to sections holding `existing`:
/// each one not held yet, in order.
pub open spec fn import_new(asns: Seq<Seq<char>>, existing: Set<Seq<char>>) -> Seq<Seq<char>>
    decreases asns.len(),
{
    if asns.len() == 0 {
        Seq::empty()
    } else {
        let prev = import_new(asns.drop_last(), existing);
        let a = asns.last();
        if existing.contains(a) || prev.contains(a) {
            prev
        } else {
            prev.push(a)
        }
    }
}

/// The section that an import adds for `asn`.
pub open spec fn new_asn_section(asn: Seq<char>, iface: Seq<char>) -> SectionView {
    SectionView {
        section_type: Some("asn"@),
        options: Map::empty().insert("asn"@, asn).insert("interface"@, iface).insert("enabled"@, "1"@),
        ..empty_section(Seq::empty())
    }
}

/// The `asn` sections that an import starts from: those left by removing
/// duplicates where that changed anything, else those read.
pub open spec fn import_base(secs: Seq<SectionView>) -> Seq<SectionView> {
    let d = dedupe_run(asn_typed(secs));
    if d.duplicates > 0 || d.invalid > 0 {
        d.kept
    } else {
        asn_typed(secs)
    }
}

/// The planned result of an import: the duplicate removal that comes first,
/// the counts, and the `asn` sections to write, when `rewrite` says so.
pub struct AsnImportPlan {
    pub dedupe: AsnDedupePlan,
    pub result: AsnImportResult,
    pub sections: Vec<UciSection>,
    pub rewrite: bool,
}

fn copy_sections(v: &Vec<UciSection>) -> (r: Vec<UciSection>)
    requires
        sections_well_formed(v@),
    ensures
        sections_well_formed(r@),
        section_views(r@) == section_views(v@),
{
    let mut r: Vec<UciSection> = Vec::new();
    for i in 0..v.len()
        invariant
            sections_well_formed(v@),
            sections_well_formed(r@),
            section_views(r@) == section_views(v@.take(i as int)),
    {
        let c = copy_section(&v[i]);
        r.push(c);
        assert(section_views(v@.take(i + 1)) == section_views(v@.take(i as int)).push(v@[i as int]@));
    }
    assert(v@.take(v.len() as int) == v@);
    r
}

fn new_section(asn: String, iface: String) -> (r: UciSection)
    ensures
        r.well_formed(),
        r@ == new_asn_section(asn@, iface@),
{
    let mut s = UciSection::named(String::new());
    s.set_type(owned("asn"));
    let k1 = chars_of("asn");
    s.set_option(k1.as_slice(), asn);
    let k2 = chars_of("interface");
    s.set_option(k2.as_slice(), iface);
    let k3 = chars_of("enabled");
    s.set_option(k3.as_slice(), owned("1"));
    s
}

/// Plans an import of a checked request into the configuration read as
/// `sections`: duplicates are removed first, then each requested ASN that no
/// `asn` section holds yet gets a new section for the request's interface.
pub fn plan_import(request: ImportRequest, sections: &Vec<UciSection>) -> (r: AsnImportPlan)
    requires
        sections_well_formed(sections@),
    ensures
        ({
            let secs = section_views(sections@);
            let d = dedupe_run(asn_typed(secs));
            let base = import_base(secs);
            let added = import_new(texts(request.asns@), keys_of(base));
            &&& section_views(r.dedupe.sections@) == d.kept
            &&& r.dedupe.result.kept == d.kept.len()
            &&& r.dedupe.result.removed_duplicates == d.duplicates
            &&& r.dedupe.result.removed_invalid == d.invalid
            &&& r.dedupe.rewrite == (d.duplicates > 0 || d.invalid > 0)
            &&& sections_well_formed(r.sections@)
            &&& section_views(r.sections@) == base + added.map_values(
                |a: Seq<char>| new_asn_section(a, request.interface@),
            )
            &&& texts(r.result.asns@) == added
            &&& r.result.imported == added.len()
            &&& r.result.skipped_existing == request.asns.len() - added.len()
            &&& r.result.skipped_duplicate == request.skipped_duplicate
            &&& r.result.invalid == request.invalid
            &&& r.result.deduplicated == d.duplicates + d.invalid
            &&& r.result.interface@ == request.interface@
            &&& r.rewrite == (added.len() > 0)
        }),
{
    let ghost secs = section_views(sections@);
    let dedupe = dedupe_asn_config(sections);
    let mut out = if dedupe.rewrite {
        copy_sections(&dedupe.sections)
    } else {
        asn_sections(sections)
    };
    let ghost base = section_views(out@);
    assert(base == import_base(secs));
    let mut seen: Vec<Vec<char>> = Vec::new();
    for i in 0..out.len()
        invariant
            base == section_views(out@),
            sections_well_formed(out@),
            sorted_strict(views(seen@)),
            views(seen@).to_set() == keys_of(base.take(i as int)),
    {
        assert(base.take(i + 1).drop_last() == base.take(i as int));
        assert(base.take(i + 1).last() == out@[i as int]@);
        match section_asn(&out[i]) {
            Some(k) => {
                let kc = chars_of(k.as_str());
                insert_sorted(&mut seen, kc);
            },
            None => {},
        }
    }
    assert(base.take(out.len() as int) == base);
    let ghost existing = keys_of(base);
    let ghost req = texts(request.asns@);
    let mut imported: Vec<String> = Vec::new();
    let mut skipped: usize = 0;
    for j in 0..request.asns.len()
        invariant
            req == texts(request.asns@),
            existing == keys_of(base),
            sorted_strict(views(seen@)),
            sections_well_formed(out@),
            texts(imported@) == import_new(req.take(j as int), existing),
            views(seen@).to_set() == existing.union(import_new(req.take(j as int), existing).to_set()),
            section_views(out@) == base + import_new(req.take(j as int), existing).map_values(
                |a: Seq<char>| new_asn_section(a, request.interface@),
            ),
            skipped == j - import_new(req.take(j as int), existing).len(),
            imported.len() <= j,
    {
        assert(req.take(j + 1).drop_last() == req.take(j as int));
        assert(req.take(j + 1).last() == request.asns@[j as int]@);
        let ghost prev = import_new(req.take(j as int), existing);
        let a = request.asns[j].clone();
        let ac = chars_of(a.as_str());
        assert(views(seen@).to_set().contains(a@) == (existing.contains(a@) || prev.contains(a@)));
        let added = insert_sorted(&mut seen, ac);
        if added {
            assert(import_new(req.take(j + 1), existing) == prev.push(a@));
            let ghost pi = imported@;
            let ghost po = out@;
            let sec = new_section(a.clone(), request.interface.clone());
            out.push(sec);
            imported.push(a);
            let ghost now = prev.push(a@);
            assert(texts(imported@) == texts(pi).push(a@));
            proof {
                lemma_push_to_set(prev, a@);
            }
            assert(now.map_values(|x: Seq<char>| new_asn_section(x, request.interface@)) == prev.map_values(
                |x: Seq<char>| new_asn_section(x, request.interface@),
            ).push(new_asn_section(a@, request.interface@)));
            assert(section_views(out@) == section_views(po).push(sec@));
            assert(section_views(out@) =~= base + now.map_values(
                |x: Seq<char>| new_asn_section(x, request.interface@),
            ));
        } else {
            skipped = skipped + 1;
        }
    }
    assert(req.take(request.asns.len() as int) == req);
    let n = imported.len();
    let deduplicated = dedupe.result.removed_duplicates + dedupe.result.removed_invalid;
    let rewrite = n > 0;
    AsnImportPlan {
        result: AsnImportResult {
            imported: n,
            skipped_existing: skipped,
            skipped_duplicate: request.skipped_duplicate,
            invalid: request.invalid,
            deduplicated,
            interface: request.interface,
            asns: imported,
        },
        dedupe,
        sections: out,
        rewrite,
    }
}

/// Imports the ASNs of `text` for `target_interface` into the configuration
/// read as `sections`.
pub fn import_asns_from_text(text: &str, target_interface: &str, sections: &Vec<UciSection>) -> (r: Result<
    AsnImportPlan,
    EditError,
>)
    requires
        sections_well_formed(sections@),
    ensures
        r matches Err(e) ==> (e == EditError::TargetInterfaceRequired <==> request_target(
            target_interface@,
        ).len() == 0) && (e == EditError::NoValidImportEntries <==> request_target(target_interface@).len()
            > 0) && e != EditError::NoValidAsnEntries,
        r is Err <==> (request_target(target_interface@).len() == 0 || import_scan(
            request_pieces(text@),
        ).asns.len() == 0),
        r matches Ok(p) ==> ({
            let secs = section_views(sections@);
            let scan = import_scan(request_pieces(text@));
            let d = dedupe_run(asn_typed(secs));
            let base = import_base(secs);
            let iface = request_target(target_interface@);
            let added = import_new(scan.asns, keys_of(base));
            &&& section_views(p.dedupe.sections@) == d.kept
            &&& p.dedupe.rewrite == (d.duplicates > 0 || d.invalid > 0)
            &&& sections_well_formed(p.sections@)
            &&& section_views(p.sections@) == base + added.map_values(
                |a: Seq<char>| new_asn_section(a, iface),
            )
            &&& texts(p.result.asns@) == added
            &&& p.result.imported == added.len()
            &&& p.result.skipped_existing == scan.asns.len() - added.len()
            &&& p.result.skipped_duplicate == scan.duplicates
            &&& p.result.invalid == scan.invalid
            &&& p.result.deduplicated == d.duplicates + d.invalid
            &&& p.result.interface@ == iface
            &&& p.rewrite == (added.len() > 0)
        }),
{
    match prepare_import(text, target_interface) {
        Err(e) => Err(e),
        Ok(request) => Ok(plan_import(request, sections)),
    }
}

// ---------------------------------------------------------------------------
// Bulk delete and bulk retarget
// ---------------------------------------------------------------------------

/// The ASNs that the pieces of a request name.
pub open spec fn asn_set(pieces: Seq<Seq<char>>) -> Set<Seq<char>>
    decreases pieces.len(),
{
    if pieces.len() == 0 {
        Set::empty()
    } else {
        let prev = asn_set(pieces.drop_last());
        match spec_normalize_asn(pieces.last()) {
            Some(a) => prev.insert(a),
            None => prev,
        }
    }
}

/// The ASNs that a request given as text names.
pub open spec fn requested_asns(text: Seq<char>) -> Set<Seq<char>> {
    asn_set(request_pieces(text))
}

/// The distinct ASNs named by `text`, in increasing order.
pub fn parse_asn_set(text: &str) -> (r: Vec<Vec<char>>)
    ensures
        sorted_strict(views(r@)),
        views(r@).to_set() == requested_asns(text@),
        r.len() == requested_asns(text@).len(),
        requested_asns(text@).finite(),
{
    let chars = chars_of(text);
    let pieces = split_chars(chars.as_slice(), Sep::CommaSemicolonOrSpace);
    let ghost ps = views(pieces@);
    let mut keys: Vec<Vec<char>> = Vec::new();
    for j in 0..pieces.len()
        invariant
            ps == views(pieces@),
            sorted_strict(views(keys@)),
            views(keys@).to_set() == asn_set(ps.take(j as int)),
    {
        assert(ps.take(j + 1).drop_last() == ps.take(j as int));
        assert(ps.take(j + 1).last() == pieces@[j as int]@);
        let piece = string_from(pieces[j].as_slice());
        match normalize_asn(piece.as_str()) {
            Some(a) => {
                let ac = chars_of(a.as_str());
                insert_sorted(&mut keys, ac);
            },
            None => {},
        }
    }
    assert(ps.take(pieces.len() as int) == ps);
    proof {
        lemma_sorted_set_len(views(keys@));
    }
    keys
}

/// Whether `k` is among the sorted keys.
fn contains_key(keys: &Vec<Vec<char>>, k: &str) -> (r: bool)
    requires
        sorted_strict(views(keys@)),
    ensures
        r == views(keys@).to_set().contains(k@),
{
    let kc = chars_of(k);
    match search_sorted(keys, kc.as_slice()) {
        Ok(pos) => {
            assert(views(keys@)[pos as int] == k@);
            true
        },
        Err(_) => false,
    }
}

/// Whether a section holds one of the ASNs `req`.
pub open spec fn requested_entry(s: SectionView, req: Set<Seq<char>>) -> bool {
    section_key(s) matches Some(k) && req.contains(k)
}

/// Whether a section of `sections` holds one of the sorted keys.
fn is_requested(sec: &UciSection, keys: &Vec<Vec<char>>) -> (r: bool)
    requires
        sec.well_formed(),
        sorted_strict(views(keys@)),
    ensures
        r == requested_entry(sec@, views(keys@).to_set()),
{
    match section_asn(sec) {
        Some(k) => contains_key(keys, k.as_str()),
        None => false,
    }
}

/// `a - b`, or 0 where `b` is larger.
pub open spec fn saturating_diff(a: int, b: int) -> int {
    if a >= b {
        a - b
    } else {
        0
    }
}

/// The planned result of a bulk delete: the counts, and the `asn` sections
/// to write when `rewrite` says so.
pub struct AsnBulkDeletePlan {
    pub result: AsnBulkDeleteResult,
    pub sections: Vec<UciSection>,
    pub rewrite: bool,
}

/// Deletes every `asn` section that holds one of the ASNs named by `text`.
pub fn bulk_delete_asns(text: &str, sections: &Vec<UciSection>) -> (r: Result<AsnBulkDeletePlan, EditError>)
    requires
        sections_well_formed(sections@),
    ensures
        r is Err <==> requested_asns(text@).len() == 0,
        r matches Err(e) ==> e == EditError::NoValidAsnEntries,
        r matches Ok(p) ==> ({
            let req = requested_asns(text@);
            let all = asn_typed(section_views(sections@));
            let left = all.filter(|s: SectionView| !requested_entry(s, req));
            &&& sections_well_formed(p.sections@)
            &&& section_views(p.sections@) == left
            &&& p.result.requested == req.len()
            &&& p.result.deleted == all.len() - left.len()
            &&& p.result.missing == saturating_diff(req.len() as int, p.result.deleted as int)
            &&& p.rewrite == (p.result.deleted > 0)
        }),
{
    let keys = parse_asn_set(text);
    if keys.len() == 0 {
        return Err(EditError::NoValidAsnEntries);
    }
    let ghost req = views(keys@).to_set();
    let all = asn_sections(sections);
    let ghost av = section_views(all@);
    let mut left: Vec<UciSection> = Vec::new();
    for i in 0..all.len()
        invariant
            av == section_views(all@),
            sections_well_formed(all@),
            sorted_strict(views(keys@)),
            req == views(keys@).to_set(),
            sections_well_formed(left@),
            section_views(left@) == av.take(i as int).filter(|s: SectionView| !requested_entry(s, req)),
            left.len() <= i,
    {
        assert(av.take(i + 1) == av.take(i as int).push(all@[i as int]@));
        if !is_requested(&all[i], &keys) {
            let c = copy_section(&all[i]);
            let ghost prev = left@;
            left.push(c);
            assert(section_views(left@) == section_views(prev).push(c@));
        }
    }
    assert(av.take(all.len() as int) == av);
    proof {
        broadcast use vstd::seq_lib::group_filter_ensures;
    }
    let requested = keys.len();
    let deleted = all.len() - left.len();
    let missing = if requested >= deleted {
        requested - deleted
    } else {
        0
    };
    Ok(AsnBulkDeletePlan {
        result: AsnBulkDeleteResult { requested, deleted, missing },
        sections: left,
        rewrite: deleted > 0,
    })
}

/// A section retargeted to `iface`.
pub open spec fn retarget(s: SectionView, iface: Seq<char>) -> SectionView {
    SectionView { options: s.options.insert("interface"@, iface), ..s }
}

/// A section, retargeted to `iface` where it holds one of the ASNs `req`.
pub open spec fn retarget_if(s: SectionView, req: Set<Seq<char>>, iface: Seq<char>) -> SectionView {
    if requested_entry(s, req) {
        retarget(s, iface)
    } else {
        s
    }
}

/// The planned result of a bulk retarget: the counts, and the `asn` sections
/// to write when `rewrite` says so.
pub struct AsnBulkSetInterfacePlan {
    pub result: AsnBulkSetInterfaceResult,
    pub sections: Vec<UciSection>,
    pub rewrite: bool,
}

/// Sets the target interface of every `asn` section that holds one of the
/// ASNs named by `text`.
pub fn bulk_set_asn_interface(text: &str, target_interface: &str, sections: &Vec<UciSection>) -> (r: Result<
    AsnBulkSetInterfacePlan,
    EditError,
>)
    requires
        sections_well_formed(sections@),
    ensures
        r == Err::<AsnBulkSetInterfacePlan, EditError>(EditError::NoValidAsnEntries) <==> requested_asns(
            text@,
        ).len() == 0,
        r == Err::<AsnBulkSetInterfacePlan, EditError>(EditError::TargetInterfaceRequired) <==> (
        requested_asns(text@).len() > 0 && request_target(target_interface@).len() == 0),
        r matches Err(e) ==> e != EditError::NoValidImportEntries,
        r matches Ok(p) ==> ({
            let req = requested_asns(text@);
            let iface = request_target(target_interface@);
            let all = asn_typed(section_views(sections@));
            &&& sections_well_formed(p.sections@)
            &&& section_views(p.sections@) == all.map_values(|s: SectionView| retarget_if(s, req, iface))
            &&& p.result.requested == req.len()
            &&& p.result.updated == all.filter(|s: SectionView| requested_entry(s, req)).len()
            &&& p.result.missing == saturating_diff(req.len() as int, p.result.updated as int)
            &&& p.result.interface@ == iface
            &&& p.rewrite == (p.result.updated > 0)
        }),
{
    let keys = parse_asn_set(text);
    if keys.len() == 0 {
        return Err(EditError::NoValidAsnEntries);
    }
    proof {
        reveal_strlit("");
    }
    let iface = normalize_interface_value(Some(target_interface), "");
    if iface.as_str().is_empty() {
        return Err(EditError::TargetInterfaceRequired);
    }
    let ghost req = views(keys@).to_set();
    let all = asn_sections(sections);
    let ghost av = section_views(all@);
    let mut out: Vec<UciSection> = Vec::new();
    let mut updated: usize = 0;
    let iface_key = chars_of("interface");
    for i in 0..all.len()
        invariant
            av == section_views(all@),
            sections_well_formed(all@),
            sorted_strict(views(keys@)),
            req == views(keys@).to_set(),
            iface_key@ == "interface"@,
            sections_well_formed(out@),
            section_views(out@) == av.take(i as int).map_values(|s: SectionView| retarget_if(s, req, iface@)),
            updated == av.take(i as int).filter(|s: SectionView| requested_entry(s, req)).len(),
            updated <= i,
    {
        assert(av.take(i + 1) == av.take(i as int).push(all@[i as int]@));
        let mut c = copy_section(&all[i]);
        let ghost prev = out@;
        if is_requested(&all[i], &keys) {
            c.set_option(iface_key.as_slice(), iface.clone());
            updated = updated + 1;
        }
        out.push(c);
        assert(section_views(out@) == section_views(prev).push(c@));
        assert(av.take(i + 1).map_values(|s: SectionView| retarget_if(s, req, iface@)) == av.take(
            i as int,
        ).map_values(|s: SectionView| retarget_if(s, req, iface@)).push(retarget_if(all@[i as int]@, req, iface@)));
    }
    assert(av.take(all.len() as int) == av);
    let requested = keys.len();
    let missing = if requested >= updated {
        requested - updated
    } else {
        0
    };
    Ok(AsnBulkSetInterfacePlan {
        result: AsnBulkSetInterfaceResult { requested, updated, missing, interface: iface },
        sections: out,
        rewrite: updated > 0,
    })
}

// ---------------------------------------------------------------------------
// Laws
// ---------------------------------------------------------------------------

/// Removing duplicates accounts for every `asn` section: each one is kept,
/// dropped as a duplicate or dropped as invalid.
pub proof fn lemma_dedupe_accounts_for_all(secs: Seq<SectionView>)
    ensures
        dedupe_run(secs).kept.len() + dedupe_run(secs).duplicates + dedupe_run(secs).invalid == secs.len(),
    decreases secs.len(),
{
    if secs.len() > 0 {
        lemma_dedupe_accounts_for_all(secs.drop_last());
    }
}

/// The count of tokens of an import text that are not blank.
pub open spec fn nonblank_count(pieces: Seq<Seq<char>>) -> nat
    decreases pieces.len(),
{
    if pieces.len() == 0 {
        0
    } else {
        nonblank_count(pieces.drop_last()) + if trim(pieces.last()).len() == 0 {
            0nat
        } else {
            1nat
        }
    }
}

/// Scanning an import text accounts for every token that is not blank: it is
/// a new ASN, a repeated one, or invalid.
pub proof fn lemma_import_scan_accounts_for_all(pieces: Seq<Seq<char>>)
    ensures
        import_scan(pieces).asns.len() + import_scan(pieces).duplicates + import_scan(pieces).invalid
            == nonblank_count(pieces),
    decreases pieces.len(),
{
    if pieces.len() > 0 {
        lemma_import_scan_accounts_for_all(pieces.drop_last());
    }
}

/// The ASNs that an import adds are among those requested, none already held
/// and none twice; each requested ASN is afterwards held or added.
pub proof fn lemma_import_new(asns: Seq<Seq<char>>, existing: Set<Seq<char>>)
    ensures
        import_new(asns, existing).len() <= asns.len(),
        import_new(asns, existing).no_duplicates(),
        forall|i: int|
            0 <= i < import_new(asns, existing).len() ==> !existing.contains(
                #[trigger] import_new(asns, existing)[i],
            ) && asns.contains(import_new(asns, existing)[i]),
        forall|i: int|
            0 <= i < asns.len() ==> existing.contains(#[trigger] asns[i]) || import_new(
                asns,
                existing,
            ).contains(asns[i]),
    decreases asns.len(),
{
    if asns.len() > 0 {
        let prev = import_new(asns.drop_last(), existing);
        lemma_import_new(asns.drop_last(), existing);
        let a = asns.last();
        let now = import_new(asns, existing);
        assert forall|i: int| 0 <= i < now.len() implies !existing.contains(#[trigger] now[i]) && asns.contains(
            now[i],
        ) by {
            if i < prev.len() {
                assert(now[i] == prev[i]);
                let w = choose|w: int| 0 <= w < asns.drop_last().len() && asns.drop_last()[w] == prev[i];
                assert(asns[w] == prev[i]);
            } else {
                assert(asns[asns.len() - 1] == a);
            }
        }
        assert forall|i: int| 0 <= i < asns.len() implies existing.contains(#[trigger] asns[i]) || now.contains(
            asns[i],
        ) by {
            if i < asns.len() - 1 {
                assert(asns.drop_last()[i] == asns[i]);
                if prev.contains(asns[i]) {
                    let w = choose|w: int| 0 <= w < prev.len() && prev[w] == asns[i];
                    assert(now[w] == prev[w]);
                }
            } else if !existing.contains(a) && !prev.contains(a) {
                assert(now[prev.len() as int] == a);
            } else if prev.contains(a) {
                let w = choose|w: int| 0 <= w < prev.len() && prev[w] == a;
                assert(now[w] == prev[w]);
            }
        }
    }
}

/// The ASNs held by sections with more sections after them.
pub proof fn lemma_keys_of_append(a: Seq<SectionView>, b: Seq<SectionView>)
    ensures
        keys_of(a + b) == keys_of(a).union(keys_of(b)),
    decreases b.len(),
{
    if b.len() == 0 {
        assert(a + b == a);
        assert(keys_of(a).union(keys_of(b)) =~= keys_of(a));
    } else {
        assert((a + b).drop_last() == a + b.drop_last());
        assert((a + b).last() == b.last());
        lemma_keys_of_append(a, b.drop_last());
        match section_key(b.last()) {
            Some(k) => {
                assert(keys_of(a + b) =~= keys_of(a).union(keys_of(b)));
            },
            None => {},
        }
    }
}

/// The section that an import adds for an ASN holds that ASN.
pub proof fn lemma_new_section_key(asn: Seq<char>, iface: Seq<char>)
    requires
        spec_normalize_asn(asn) == Some(asn),
    ensures
        section_key(new_asn_section(asn, iface)) == Some(asn),
{
    reveal_strlit("asn");
    reveal_strlit("interface");
    reveal_strlit("enabled");
    let o = new_asn_section(asn, iface).options;
    assert("enabled"@.len() == 7 && "asn"@.len() == 3 && "interface"@.len() == 9);
    assert(o.contains_key("asn"@) && o["asn"@] == asn);
}

/// The ASNs held by the sections that an import adds.
pub proof fn lemma_new_sections_keys(added: Seq<Seq<char>>, iface: Seq<char>)
    requires
        forall|i: int| 0 <= i < added.len() ==> spec_normalize_asn(#[trigger] added[i]) == Some(added[i]),
    ensures
        keys_of(added.map_values(|a: Seq<char>| new_asn_section(a, iface))) == added.to_set(),
    decreases added.len(),
{
    let m = added.map_values(|a: Seq<char>| new_asn_section(a, iface));
    if added.len() == 0 {
        assert(added.to_set() =~= Set::empty());
    } else {
        let last = added.last();
        assert(m.drop_last() == added.drop_last().map_values(|a: Seq<char>| new_asn_section(a, iface)));
        lemma_new_sections_keys(added.drop_last(), iface);
        lemma_new_section_key(last, iface);
        assert(added == added.drop_last().push(last));
        lemma_push_to_set(added.drop_last(), last);
    }
}

/// The ASNs of an import scan are normalized.
pub proof fn lemma_import_scan_normalized(pieces: Seq<Seq<char>>)
    ensures
        forall|i: int|
            0 <= i < import_scan(pieces).asns.len() ==> spec_normalize_asn(
                #[trigger] import_scan(pieces).asns[i],
            ) == Some(import_scan(pieces).asns[i]),
    decreases pieces.len(),
{
    if pieces.len() > 0 {
        lemma_import_scan_normalized(pieces.drop_last());
        let t = trim(pieces.last());
        if t.len() > 0 {
            if let Some(a) = spec_normalize_asn(t) {
                crate::config::lemma_normalize_asn_idempotent(t);
            }
        }
    }
}

/// After an import, every ASN that the text names is held by an `asn`
/// section of the configuration written, and no other ASN is added.
pub proof fn lemma_import_covers_request(text: Seq<char>, secs: Seq<SectionView>, iface: Seq<char>)
    ensures
        ({
            let scan = import_scan(request_pieces(text));
            let base = import_base(secs);
            let added = import_new(scan.asns, keys_of(base));
            let written = base + added.map_values(|a: Seq<char>| new_asn_section(a, iface));
            &&& forall|i: int| 0 <= i < scan.asns.len() ==> keys_of(written).contains(#[trigger] scan.asns[i])
            &&& keys_of(written) == keys_of(base).union(added.to_set())
        }),
{
    let scan = import_scan(request_pieces(text));
    let base = import_base(secs);
    let added = import_new(scan.asns, keys_of(base));
    let m = added.map_values(|a: Seq<char>| new_asn_section(a, iface));
    lemma_import_new(scan.asns, keys_of(base));
    lemma_import_scan_normalized(request_pieces(text));
    assert forall|i: int| 0 <= i < added.len() implies spec_normalize_asn(#[trigger] added[i]) == Some(
        added[i],
    ) by {
        let w = choose|w: int| 0 <= w < scan.asns.len() && scan.asns[w] == added[i];
        assert(spec_normalize_asn(scan.asns[w]) == Some(scan.asns[w]));
    }
    lemma_new_sections_keys(added, iface);
    lemma_keys_of_append(base, m);
    assert forall|i: int| 0 <= i < scan.asns.len() implies keys_of(base + m).contains(
        #[trigger] scan.asns[i],
    ) by {
        assert(keys_of(base).contains(scan.asns[i]) || added.contains(scan.asns[i]));
    }
}

/// A bulk delete leaves no `asn` section that holds a requested ASN, and
/// leaves every other `asn` section as it was, in order.
pub proof fn lemma_bulk_delete_leaves_others(text: Seq<char>, secs: Seq<SectionView>)
    ensures
        ({
            let req = requested_asns(text);
            let all = asn_typed(secs);
            let left = all.filter(|s: SectionView| !requested_entry(s, req));
            &&& forall|i: int| 0 <= i < left.len() ==> !requested_entry(#[trigger] left[i], req)
            &&& forall|i: int|
                0 <= i < all.len() && !requested_entry(#[trigger] all[i], req) ==> left.contains(all[i])
        }),
{
    let req = requested_asns(text);
    let all = asn_typed(secs);
    let f = |s: SectionView| !requested_entry(s, req);
    broadcast use vstd::seq_lib::group_filter_ensures;
    assert forall|i: int| 0 <= i < all.len() && !requested_entry(#[trigger] all[i], req) implies all.filter(
        f,
    ).contains(all[i]) by {
        all.lemma_filter_contains(f, i);
    }
}

/// A section in the form that removing duplicates keeps: of type `asn`,
/// holding a normalized ASN, and left unchanged by normalizing it again.
pub open spec fn canonical_entry(s: SectionView) -> bool {
    &&& is_type(s, "asn"@)
    &&& section_key(s) is Some
    &&& spec_normalize_asn(section_key(s).unwrap()) == section_key(s)
    &&& dedupe_section(s, section_key(s).unwrap()) == s
}

/// Sections in canonical form, each holding an ASN that no earlier one holds.
pub open spec fn canonical_entries(kept: Seq<SectionView>) -> bool {
    forall|i: int|
        0 <= i < kept.len() ==> canonical_entry(#[trigger] kept[i]) && !keys_of(kept.take(i)).contains(
            section_key(kept[i]).unwrap(),
        )
}

/// The interface that removing duplicates writes is left as it is when
/// normalized again.
pub proof fn lemma_normalize_interface_stable(v: Option<Seq<char>>)
    ensures
        spec_normalize_interface(Some(spec_normalize_interface(v, "wan"@)), "wan"@) == spec_normalize_interface(
            v,
            "wan"@,
        ),
{
    reveal_strlit("wan");
    let n = spec_normalize_interface(v, "wan"@);
    let x = match v {
        Some(x) => x,
        None => "wan"@,
    };
    crate::text::lemma_trim_idempotent(x);
    crate::text::lemma_trim_noop("wan"@);
}

/// A section kept by removing duplicates is in canonical form.
pub proof fn lemma_dedupe_section_canonical(s: SectionView, k: Seq<char>)
    requires
        is_type(s, "asn"@),
        spec_normalize_asn(k) == Some(k),
    ensures
        section_key(dedupe_section(s, k)) == Some(k),
        canonical_entry(dedupe_section(s, k)),
{
    reveal_strlit("asn");
    reveal_strlit("interface");
    reveal_strlit("enabled");
    assert("enabled"@.len() == 7 && "asn"@.len() == 3 && "interface"@.len() == 9);
    let d = dedupe_section(s, k);
    assert(d.options.contains_key("asn"@) && d.options["asn"@] == k);
    let n = spec_normalize_interface(opt_of(s, "interface"@), "wan"@);
    assert(d.options.contains_key("interface"@) && d.options["interface"@] == n);
    lemma_normalize_interface_stable(opt_of(s, "interface"@));
    let d2 = dedupe_section(d, k);
    assert(d2.options =~= d.options);
}

/// Removing duplicates keeps sections in canonical form, one per ASN, and
/// its set of ASNs is the set that the kept sections hold.
pub proof fn lemma_dedupe_run_canonical(secs: Seq<SectionView>)
    requires
        forall|i: int| 0 <= i < secs.len() ==> is_type(#[trigger] secs[i], "asn"@),
    ensures
        canonical_entries(dedupe_run(secs).kept),
        dedupe_run(secs).keys == keys_of(dedupe_run(secs).kept),
    decreases secs.len(),
{
    if secs.len() > 0 {
        let pre = secs.drop_last();
        assert forall|i: int| 0 <= i < pre.len() implies is_type(#[trigger] pre[i], "asn"@) by {
            assert(pre[i] == secs[i]);
        }
        lemma_dedupe_run_canonical(pre);
        let st = dedupe_run(pre);
        let s = secs.last();
        assert(is_type(s, "asn"@));
        if let Some(k) = section_key(s) {
            if !st.keys.contains(k) {
                let a = opt_of(s, "asn"@).unwrap();
                crate::config::lemma_normalize_asn_idempotent(a);
                lemma_dedupe_section_canonical(s, k);
                let kept = st.kept.push(dedupe_section(s, k));
                assert(kept.drop_last() == st.kept);
                assert forall|i: int| 0 <= i < kept.len() implies canonical_entry(#[trigger] kept[i])
                    && !keys_of(kept.take(i)).contains(section_key(kept[i]).unwrap()) by {
                    if i < st.kept.len() {
                        assert(kept[i] == st.kept[i]);
                        assert(kept.take(i) == st.kept.take(i));
                    } else {
                        assert(kept.take(i) == st.kept);
                    }
                }
            }
        }
    }
}

/// Sections in canonical form, one per ASN, are left as they are by
/// removing duplicates.
pub proof fn lemma_dedupe_fixed(kept: Seq<SectionView>)
    requires
        canonical_entries(kept),
    ensures
        dedupe_run(kept) == (DedupeState { kept: kept, keys: keys_of(kept), duplicates: 0, invalid: 0 }),
    decreases kept.len(),
{
    if kept.len() > 0 {
        let pre = kept.drop_last();
        assert forall|i: int| 0 <= i < pre.len() implies canonical_entry(#[trigger] pre[i]) && !keys_of(
            pre.take(i),
        ).contains(section_key(pre[i]).unwrap()) by {
            assert(pre[i] == kept[i]);
            assert(pre.take(i) == kept.take(i));
        }
        lemma_dedupe_fixed(pre);
        let last = kept[kept.len() - 1];
        assert(canonical_entry(last));
        assert(kept.take(kept.len() - 1) == pre);
        let k = section_key(last).unwrap();
        assert(!keys_of(pre).contains(k));
        assert(dedupe_section(last, k) == last);
        assert(pre.push(last) == kept);
        assert(dedupe_run(kept).kept == kept);
        assert(dedupe_run(kept).keys == keys_of(kept));
    } else {
        assert(kept == Seq::<SectionView>::empty());
    }
}

/// Removing duplicates a second time, from what the first pass kept,
/// removes nothing and changes nothing.
pub proof fn lemma_dedupe_idempotent(secs: Seq<SectionView>)
    ensures
        ({
            let d = dedupe_run(asn_typed(secs));
            dedupe_run(asn_typed(d.kept)) == (DedupeState {
                kept: d.kept,
                keys: d.keys,
                duplicates: 0,
                invalid: 0,
            })
        }),
{
    broadcast use vstd::seq_lib::group_filter_ensures;

    let a = asn_typed(secs);
    assert forall|i: int| 0 <= i < a.len() implies is_type(#[trigger] a[i], "asn"@) by {}
    lemma_dedupe_run_canonical(a);
    let d = dedupe_run(a);
    lemma_dedupe_fixed(d.kept);
    assert(asn_typed(d.kept) == d.kept) by {
        let f = |s: SectionView| is_type(s, "asn"@);
        assert forall|i: int| 0 <= i < d.kept.len() implies f(#[trigger] d.kept[i]) by {
            assert(canonical_entry(d.kept[i]));
        }
        lemma_filter_all(d.kept, f);
    }
}

/// Filtering by a predicate that every element meets keeps them all.
pub proof fn lemma_filter_all<A>(s: Seq<A>, f: spec_fn(A) -> bool)
    requires
        forall|i: int| 0 <= i < s.len() ==> f(#[trigger] s[i]),
    ensures
        s.filter(f) == s,
    decreases s.len(),
{
    if s.len() > 0 {
        let pre = s.drop_last();
        assert forall|i: int| 0 <= i < pre.len() implies f(#[trigger] pre[i]) by {
            assert(pre[i] == s[i]);
        }
        lemma_filter_all(pre, f);
        assert(pre.push(s.last()) == s);
        assert(f(s[s.len() - 1]));
        assert(pre.push(s.last()).filter(f) == pre.filter(f).push(s.last()));
    } else {
        assert(s.filter(f) =~= s);
    }
}

/// Sections each holding a valid ASN that no earlier one holds.
pub open spec fn distinct_keys(s: Seq<SectionView>) -> bool {
    forall|i: int|
        0 <= i < s.len() ==> (#[trigger] section_key(s[i])) is Some && !keys_of(s.take(i)).contains(
            section_key(s[i]).unwrap(),
        )
}

/// Removing duplicates from sections that hold distinct valid ASNs removes
/// nothing.
pub proof fn lemma_distinct_keys_dedupe(s: Seq<SectionView>)
    requires
        distinct_keys(s),
    ensures
        dedupe_run(s).duplicates == 0,
        dedupe_run(s).invalid == 0,
        dedupe_run(s).keys == keys_of(s),
    decreases s.len(),
{
    if s.len() > 0 {
        let pre = s.drop_last();
        assert forall|i: int| 0 <= i < pre.len() implies (#[trigger] section_key(pre[i])) is Some
            && !keys_of(pre.take(i)).contains(section_key(pre[i]).unwrap()) by {
            assert(pre[i] == s[i]);
            assert(pre.take(i) == s.take(i));
            assert(section_key(s[i]) is Some);
        }
        lemma_distinct_keys_dedupe(pre);
        assert(section_key(s[s.len() - 1]) is Some);
        assert(s.take(s.len() - 1) == pre);
    }
}

/// Sections from which removing duplicates removes nothing hold distinct
/// valid ASNs.
pub proof fn lemma_dedupe_clean_distinct(s: Seq<SectionView>)
    requires
        dedupe_run(s).duplicates == 0,
        dedupe_run(s).invalid == 0,
    ensures
        distinct_keys(s),
        dedupe_run(s).keys == keys_of(s),
    decreases s.len(),
{
    if s.len() > 0 {
        let pre = s.drop_last();
        lemma_dedupe_clean_distinct(pre);
        assert(s.take(s.len() - 1) == pre);
        assert forall|i: int| 0 <= i < s.len() implies (#[trigger] section_key(s[i])) is Some && !keys_of(
            s.take(i),
        ).contains(section_key(s[i]).unwrap()) by {
            if i < pre.len() {
                assert(pre[i] == s[i]);
                assert(pre.take(i) == s.take(i));
                assert(section_key(pre[i]) is Some);
            }
        }
    }
}

/// The ASN of each section of a list is among the ASNs of the list.
pub proof fn lemma_keys_of_contains(s: Seq<SectionView>, i: int)
    requires
        0 <= i < s.len(),
        section_key(s[i]) is Some,
    ensures
        keys_of(s).contains(section_key(s[i]).unwrap()),
{
    let a = s.take(i + 1);
    let b = s.skip(i + 1);
    assert(s == a + b);
    assert(a.drop_last() == s.take(i));
    lemma_keys_of_append(a, b);
}

/// Two lists of sections with distinct valid ASNs and no ASN in common make,
/// one after the other, a list with distinct valid ASNs.
pub proof fn lemma_distinct_keys_append(a: Seq<SectionView>, b: Seq<SectionView>)
    requires
        distinct_keys(a),
        distinct_keys(b),
        keys_of(a).disjoint(keys_of(b)),
    ensures
        distinct_keys(a + b),
{
    let s = a + b;
    assert forall|i: int| 0 <= i < s.len() implies (#[trigger] section_key(s[i])) is Some && !keys_of(
        s.take(i),
    ).contains(section_key(s[i]).unwrap()) by {
        if i < a.len() {
            assert(s[i] == a[i]);
            assert(s.take(i) == a.take(i));
            assert(section_key(a[i]) is Some);
        } else {
            let j = i - a.len();
            assert(s[i] == b[j]);
            assert(s.take(i) == a + b.take(j));
            assert(section_key(b[j]) is Some);
            lemma_keys_of_append(a, b.take(j));
            lemma_keys_of_contains(b, j);
        }
    }
}

/// The sections that an import adds hold distinct valid ASNs: those added.
pub proof fn lemma_new_sections_distinct(added: Seq<Seq<char>>, iface: Seq<char>)
    requires
        added.no_duplicates(),
        forall|i: int| 0 <= i < added.len() ==> spec_normalize_asn(#[trigger] added[i]) == Some(added[i]),
    ensures
        distinct_keys(added.map_values(|a: Seq<char>| new_asn_section(a, iface))),
        keys_of(added.map_values(|a: Seq<char>| new_asn_section(a, iface))) == added.to_set(),
{
    let m = added.map_values(|a: Seq<char>| new_asn_section(a, iface));
    lemma_new_sections_keys(added, iface);
    assert forall|i: int| 0 <= i < m.len() implies (#[trigger] section_key(m[i])) is Some && !keys_of(
        m.take(i),
    ).contains(section_key(m[i]).unwrap()) by {
        lemma_new_section_key(added[i], iface);
        let pre = added.take(i);
        assert(m.take(i) == pre.map_values(|a: Seq<char>| new_asn_section(a, iface)));
        assert forall|k: int| 0 <= k < pre.len() implies spec_normalize_asn(#[trigger] pre[k]) == Some(
            pre[k],
        ) by {
            assert(pre[k] == added[k]);
        }
        lemma_new_sections_keys(pre, iface);
        if pre.contains(added[i]) {
            let k = choose|k: int| 0 <= k < pre.len() && pre[k] == added[i];
            assert(added[k] == added[i]);
        }
    }
}

/// After an import, the `asn` sections written hold every ASN at most once,
/// each valid: removing duplicates afterwards finds nothing to remove.
pub proof fn lemma_import_leaves_no_duplicates(text: Seq<char>, secs: Seq<SectionView>, iface: Seq<char>)
    ensures
        ({
            let scan = import_scan(request_pieces(text));
            let base = import_base(secs);
            let added = import_new(scan.asns, keys_of(base));
            let written = base + added.map_values(|a: Seq<char>| new_asn_section(a, iface));
            &&& dedupe_run(asn_typed(written)).duplicates == 0
            &&& dedupe_run(asn_typed(written)).invalid == 0
        }),
{
    broadcast use vstd::seq_lib::group_filter_ensures;

    let scan = import_scan(request_pieces(text));
    let base = import_base(secs);
    let added = import_new(scan.asns, keys_of(base));
    let m = added.map_values(|a: Seq<char>| new_asn_section(a, iface));
    let written = base + m;
    let a = asn_typed(secs);
    let d = dedupe_run(a);
    assert forall|i: int| 0 <= i < a.len() implies is_type(#[trigger] a[i], "asn"@) by {}
    lemma_dedupe_run_canonical(a);
    if d.duplicates > 0 || d.invalid > 0 {
        assert forall|i: int| 0 <= i < base.len() implies (#[trigger] section_key(base[i])) is Some && !keys_of(
            base.take(i),
        ).contains(section_key(base[i]).unwrap()) by {
            assert(canonical_entry(base[i]));
        }
    } else {
        lemma_dedupe_clean_distinct(a);
    }
    assert(distinct_keys(base));
    lemma_import_new(scan.asns, keys_of(base));
    lemma_import_scan_normalized(request_pieces(text));
    assert forall|i: int| 0 <= i < added.len() implies spec_normalize_asn(#[trigger] added[i]) == Some(
        added[i],
    ) by {
        let w = choose|w: int| 0 <= w < scan.asns.len() && scan.asns[w] == added[i];
        assert(spec_normalize_asn(scan.asns[w]) == Some(scan.asns[w]));
    }
    lemma_new_sections_distinct(added, iface);
    assert(keys_of(base).disjoint(keys_of(m))) by {
        assert forall|k: Seq<char>| keys_of(base).contains(k) implies !keys_of(m).contains(k) by {
            if added.to_set().contains(k) {
                let i = choose|i: int| 0 <= i < added.len() && added[i] == k;
                assert(!keys_of(base).contains(added[i]));
            }
        }
    }
    lemma_distinct_keys_append(base, m);
    lemma_distinct_keys_dedupe(written);
    assert(asn_typed(written) == written) by {
        let f = |s: SectionView| is_type(s, "asn"@);
        assert forall|i: int| 0 <= i < written.len() implies f(#[trigger] written[i]) by {
            if i < base.len() {
                assert(written[i] == base[i]);
                if d.duplicates > 0 || d.invalid > 0 {
                    assert(canonical_entry(base[i]));
                }
            } else {
                assert(written[i] == m[i - base.len()]);
                reveal_strlit("asn");
            }
        }
        lemma_filter_all(written, f);
    }
}

} // verus!
