//! Spectrum XML migration analysis.
//!
//! A legacy Spectrum XML configuration is scanned for fields that have no
//! model any more (stale), fields kept but inert, and MIDI bindings whose
//! target property does not exist.

use vstd::prelude::*;

use crate::text::{
    find_chars, find_from, occurs_in, str_chars, str_eq, trim, trim_bounds, contains_chars,
    lemma_find_from_first,
};

verus! {

/// Warning category emitted by the migration analyzer.
#[derive(Clone, Copy, Debug, PartialEq, Eq, Structural)]
pub enum WarningKind {
    /// Field is known stale and has no Rust v1 model.
    StaleField,
    /// Field exists but is intentionally inert/cut in v1.
    InertField,
    /// MIDI binding references a missing config property.
    InvalidMidiBindingTarget,
}

/// One migration warning.
#[derive(Clone, Debug, PartialEq, Eq)]
pub struct MigrationWarning {
    /// Warning kind.
    pub kind: WarningKind,
    /// XML field or binding target.
    pub field: String,
}

impl View for MigrationWarning {
    type V = (WarningKind, Seq<char>);

    open spec fn view(&self) -> (WarningKind, Seq<char>) {
        (self.kind, self.field@)
    }
}

/// The abstract contents of a list of warnings.
pub open spec fn warnings_view(warnings: Seq<MigrationWarning>) -> Seq<(WarningKind, Seq<char>)> {
    warnings.map_values(|w: MigrationWarning| w@)
}

/// Migration analysis result.
#[derive(Clone, Debug, Default, PartialEq, Eq)]
pub struct MigrationReport {
    /// Warnings found while analyzing XML.
    pub warnings: Vec<MigrationWarning>,
}

impl View for MigrationReport {
    type V = Seq<(WarningKind, Seq<char>)>;

    open spec fn view(&self) -> Seq<(WarningKind, Seq<char>)> {
        warnings_view(self.warnings@)
    }
}

impl MigrationReport {
    /// Whether this report contains a warning for a field.
    pub fn contains(&self, kind: WarningKind, field: &str) -> (found: bool)
        ensures
            found == self@.contains((kind, field@)),
    {
        let mut i: usize = 0;
        while i < self.warnings.len()
            invariant
                i <= self.warnings@.len(),
                forall|j: int| 0 <= j < i ==> #[trigger] self@[j] != (kind, field@),
            decreases self.warnings@.len() - i,
        {
            let warning = &self.warnings[i];
            if warning.kind == kind && str_eq(warning.field.as_str(), field) {
                assert(self@[i as int] == (kind, field@));
                return true;
            }
            i += 1;
        }
        false
    }
}

/// Fields that have no model any more.
pub open spec fn stale_fields() -> Seq<&'static str> {
    seq![
        "audioDeviceIndex",
        "huesEnabled",
        "ledBoardEnabled",
        "huesOutputInSeparateThread",
        "ledBoardOutputInSeparateThread",
        "boardBeagleboneOPCAddress",
        "boardRowLength",
        "boardRowsPerStrip",
        "boardBrightness",
        "hueURL",
        "hueIndices",
        "kickT",
        "snareT",
    ]
}

/// Fields that are kept but have no effect.
pub open spec fn inert_fields() -> Seq<&'static str> {
    seq!["domeAutoFlashDelay"]
}

/// The configuration properties a MIDI binding may target.
pub open spec fn valid_binding_targets() -> Seq<&'static str> {
    seq![
        "domeBrightness",
        "domeVolumeAnimationSize",
        "domeVolumeRotationSpeed",
        "domeGradientSpeed",
        "domeGlobalFadeSpeed",
        "domeGlobalHueSpeed",
        "domeTwinkleDensity",
        "domeRippleCDStep",
        "domeRippleStep",
        "domeRadialSize",
        "domeRadialFrequency",
        "domeRadialCenterAngle",
        "domeRadialCenterDistance",
        "domeRadialCenterSpeed",
        "flashSpeed",
        "stageTracerSpeed",
        "colorPaletteIndex",
    ]
}

fn stale_field_list() -> (fields: Vec<&'static str>)
    ensures
        fields@ == stale_fields(),
{
    vec![
        "audioDeviceIndex",
        "huesEnabled",
        "ledBoardEnabled",
        "huesOutputInSeparateThread",
        "ledBoardOutputInSeparateThread",
        "boardBeagleboneOPCAddress",
        "boardRowLength",
        "boardRowsPerStrip",
        "boardBrightness",
        "hueURL",
        "hueIndices",
        "kickT",
        "snareT",
    ]
}

fn inert_field_list() -> (fields: Vec<&'static str>)
    ensures
        fields@ == inert_fields(),
{
    vec!["domeAutoFlashDelay"]
}

fn valid_binding_target_list() -> (targets: Vec<&'static str>)
    ensures
        targets@ == valid_binding_targets(),
{
    vec![
        "domeBrightness",
        "domeVolumeAnimationSize",
        "domeVolumeRotationSpeed",
        "domeGradientSpeed",
        "domeGlobalFadeSpeed",
        "domeGlobalHueSpeed",
        "domeTwinkleDensity",
        "domeRippleCDStep",
        "domeRippleStep",
        "domeRadialSize",
        "domeRadialFrequency",
        "domeRadialCenterAngle",
        "domeRadialCenterDistance",
        "domeRadialCenterSpeed",
        "flashSpeed",
        "stageTracerSpeed",
        "colorPaletteIndex",
    ]
}

} // verus!

verus! {

/// The opening tag of a MIDI binding target.
pub open spec fn open_tag() -> Seq<char> {
    "<configPropertyName>"@
}

/// The closing tag of a MIDI binding target.
pub open spec fn close_tag() -> Seq<char> {
    "</configPropertyName>"@
}

/// The binding tags are 20 and 21 characters long.
pub proof fn lemma_tag_lengths()
    ensures
        open_tag().len() == 20,
        close_tag().len() == 21,
{
    reveal_strlit("<configPropertyName>");
    reveal_strlit("</configPropertyName>");
}

/// The trimmed contents of each `<configPropertyName>...</configPropertyName>`
/// element from position `pos` on, in order; scanning stops at the first
/// opening tag without a closing tag after it.
pub open spec fn property_names_from(xml: Seq<char>, pos: int) -> Seq<Seq<char>>
    decreases xml.len() - pos,
{
    if pos < 0 || pos > xml.len() {
        Seq::empty()
    } else {
        match find_from(xml, open_tag(), pos) {
            None => Seq::empty(),
            Some(start) => {
                let value_start = start + open_tag().len();
                match find_from(xml, close_tag(), value_start) {
                    None => Seq::empty(),
                    Some(end) => {
                        proof {
                            lemma_tag_lengths();
                            lemma_find_from_first(xml, open_tag(), pos);
                            lemma_find_from_first(xml, close_tag(), value_start);
                        }
                        seq![trim(xml.subrange(value_start, end))] + property_names_from(
                            xml,
                            end + close_tag().len(),
                        )
                    },
                }
            },
        }
    }
}

/// The MIDI binding targets named in `xml`.
pub open spec fn property_names(xml: Seq<char>) -> Seq<Seq<char>> {
    property_names_from(xml, 0)
}

/// The trimmed binding targets of `xml`, in document order.
fn config_property_names(xml: &str) -> (values: Vec<String>)
    ensures
        values@.map_values(|v: String| v@) == property_names(xml@),
{
    let chars = str_chars(xml);
    let open = str_chars("<configPropertyName>");
    let close = str_chars("</configPropertyName>");
    proof {
        lemma_tag_lengths();
    }
    let mut values: Vec<String> = Vec::new();
    let mut pos: usize = 0;
    loop
        invariant
            chars@ == xml@,
            open@ == open_tag(),
            close@ == close_tag(),
            pos <= chars@.len(),
            property_names(xml@) == values@.map_values(|v: String| v@) + property_names_from(
                xml@,
                pos as int,
            ),
        ensures
            property_names(xml@) == values@.map_values(|v: String| v@),
        decreases chars@.len() - pos,
    {
        let ghost old_values = values@.map_values(|v: String| v@);
        match find_chars(&chars, &open, pos) {
            None => {
                assert(old_values + property_names_from(xml@, pos as int) =~= old_values);
                break ;
            },
            Some(start) => {
                proof {
                    lemma_find_from_first(xml@, open_tag(), pos as int);
                    assert(start + open@.len() <= chars@.len());
                    assert(chars@.len() == chars.len());
                    assert(open@.len() == open.len());
                }
                let value_start = start + open.len();
                match find_chars(&chars, &close, value_start) {
                    None => {
                        assert(old_values + property_names_from(xml@, pos as int) =~= old_values);
                        break ;
                    },
                    Some(end) => {
                        proof {
                            lemma_find_from_first(xml@, close_tag(), value_start as int);
                            assert(end + close@.len() <= chars@.len());
                            assert(chars@.len() == chars.len());
                            assert(close@.len() == close.len());
                        }
                        let (a, b) = trim_bounds(&chars, value_start, end);
                        let value = String::from_str(xml.substring_char(a, b));
                        values.push(value);
                        let ghost next = property_names_from(xml@, end + close@.len());
                        assert(values@.map_values(|v: String| v@) =~= old_values.push(
                            trim(xml@.subrange(value_start as int, end as int)),
                        ));
                        assert(old_values + property_names_from(xml@, pos as int) =~= values@.map_values(
                            |v: String| v@,
                        ) + next);
                        pos = end + close.len();
                    },
                }
            },
        }
    }
    values
}

} // verus!

verus! {

/// The XML opening tag `<field>`.
pub open spec fn tag_of(field: Seq<char>) -> Seq<char> {
    seq!['<'] + field + seq!['>']
}

/// One warning of `kind` for each field of `fields`, in order, whose opening
/// tag occurs in `xml`.
pub open spec fn field_warnings(
    xml: Seq<char>,
    fields: Seq<&'static str>,
    kind: WarningKind,
) -> Seq<(WarningKind, Seq<char>)>
    decreases fields.len(),
{
    if fields.len() == 0 {
        Seq::empty()
    } else {
        let rest = field_warnings(xml, fields.drop_last(), kind);
        if occurs_in(xml, tag_of(fields.last()@)) {
            rest.push((kind, fields.last()@))
        } else {
            rest
        }
    }
}

/// `target` is one of the properties a MIDI binding may drive.
pub open spec fn is_valid_binding_target(target: Seq<char>) -> bool {
    exists|i: int|
        0 <= i < valid_binding_targets().len() && (#[trigger] valid_binding_targets()[i])@
            == target
}

/// One warning for each binding target, in order, that is not a valid one.
pub open spec fn binding_warnings(targets: Seq<Seq<char>>) -> Seq<(WarningKind, Seq<char>)>
    decreases targets.len(),
{
    if targets.len() == 0 {
        Seq::empty()
    } else {
        let rest = binding_warnings(targets.drop_last());
        if is_valid_binding_target(targets.last()) {
            rest
        } else {
            rest.push((WarningKind::InvalidMidiBindingTarget, targets.last()))
        }
    }
}

/// The report for `xml`: stale fields, then inert fields, then invalid
/// binding targets.
pub open spec fn spectrum_report(xml: Seq<char>) -> Seq<(WarningKind, Seq<char>)> {
    field_warnings(xml, stale_fields(), WarningKind::StaleField) + field_warnings(
        xml,
        inert_fields(),
        WarningKind::InertField,
    ) + binding_warnings(property_names(xml))
}

fn tag_chars(field: &str) -> (tag: Vec<char>)
    ensures
        tag@ == tag_of(field@),
{
    let inner = str_chars(field);
    let mut tag: Vec<char> = Vec::new();
    tag.push('<');
    let mut i: usize = 0;
    while i < inner.len()
        invariant
            i <= inner@.len(),
            tag@ == seq!['<'] + inner@.take(i as int),
        decreases inner@.len() - i,
    {
        tag.push(inner[i]);
        assert(inner@.take(i + 1) =~= inner@.take(i as int).push(inner@[i as int]));
        assert(tag@ =~= seq!['<'] + inner@.take(i + 1));
        i += 1;
    }
    tag.push('>');
    assert(inner@.take(inner@.len() as int) =~= inner@);
    assert(tag@ =~= tag_of(field@));
    tag
}

fn push_field_warnings(
    xml: &Vec<char>,
    fields: &Vec<&'static str>,
    kind: WarningKind,
    warnings: &mut Vec<MigrationWarning>,
)
    ensures
        warnings_view(final(warnings)@) == warnings_view(old(warnings)@) + field_warnings(
            xml@,
            fields@,
            kind,
        ),
{
    let ghost start = warnings_view(warnings@);
    let mut i: usize = 0;
    while i < fields.len()
        invariant
            i <= fields@.len(),
            warnings_view(warnings@) == start + field_warnings(xml@, fields@.take(i as int), kind),
        decreases fields@.len() - i,
    {
        let field = fields[i];
        proof {
            assert(fields@.take(i + 1).drop_last() =~= fields@.take(i as int));
            assert(fields@.take(i + 1).last() == field);
        }
        let tag = tag_chars(field);
        if contains_chars(xml, &tag) {
            let ghost before = warnings@;
            warnings.push(MigrationWarning { kind, field: String::from_str(field) });
            assert(warnings_view(warnings@) =~= warnings_view(before).push((kind, field@)));
        }
        i += 1;
    }
    assert(fields@.take(fields@.len() as int) =~= fields@);
}

fn is_valid_target(targets: &Vec<&'static str>, target: &str) -> (valid: bool)
    requires
        targets@ == valid_binding_targets(),
    ensures
        valid == is_valid_binding_target(target@),
{
    let mut i: usize = 0;
    while i < targets.len()
        invariant
            i <= targets@.len(),
            targets@ == valid_binding_targets(),
            forall|j: int| 0 <= j < i ==> (#[trigger] targets@[j])@ != target@,
        decreases targets@.len() - i,
    {
        if str_eq(targets[i], target) {
            assert(valid_binding_targets()[i as int]@ == target@);
            return true;
        }
        i += 1;
    }
    false
}

/// Analyze a Spectrum XML config and emit migration warnings: one stale-field
/// warning for each stale field whose opening tag `<field>` occurs, then one
/// inert-field warning for each inert field whose tag occurs, then one
/// invalid-target warning for each `configPropertyName` that is not a known
/// binding target, all in order.
pub fn analyze_spectrum_xml(xml: &str) -> (report: MigrationReport)
    ensures
        report@ == spectrum_report(xml@),
{
    let chars = str_chars(xml);
    let mut warnings: Vec<MigrationWarning> = Vec::new();
    assert(warnings_view(warnings@) =~= Seq::empty());
    push_field_warnings(&chars, &stale_field_list(), WarningKind::StaleField, &mut warnings);
    push_field_warnings(&chars, &inert_field_list(), WarningKind::InertField, &mut warnings);
    let ghost fields_part = warnings_view(warnings@);
    let targets = config_property_names(xml);
    let valid = valid_binding_target_list();
    let ghost names = targets@.map_values(|v: String| v@);
    let mut i: usize = 0;
    while i < targets.len()
        invariant
            i <= targets@.len(),
            names == targets@.map_values(|v: String| v@),
            valid@ == valid_binding_targets(),
            warnings_view(warnings@) == fields_part + binding_warnings(names.take(i as int)),
        decreases targets@.len() - i,
    {
        let target = &targets[i];
        proof {
            assert(names.take(i + 1).drop_last() =~= names.take(i as int));
            assert(names.take(i + 1).last() == target@);
        }
        if !is_valid_target(&valid, target.as_str()) {
            let ghost before = warnings@;
            warnings.push(
                MigrationWarning { kind: WarningKind::InvalidMidiBindingTarget, field: target.clone() },
            );
            assert(warnings_view(warnings@) =~= warnings_view(before).push(
                (WarningKind::InvalidMidiBindingTarget, target@),
            ));
        }
        i += 1;
    }
    assert(names.take(names.len() as int) =~= names);
    MigrationReport { warnings }
}

} // verus!

verus! {

proof fn lemma_field_warnings_members(
    xml: Seq<char>,
    fields: Seq<&'static str>,
    kind: WarningKind,
    w: (WarningKind, Seq<char>),
)
    ensures
        field_warnings(xml, fields, kind).contains(w) <==> (w.0 == kind && occurs_in(
            xml,
            tag_of(w.1),
        ) && exists|i: int| 0 <= i < fields.len() && (#[trigger] fields[i])@ == w.1),
    decreases fields.len(),
{
    if fields.len() > 0 {
        let rest = fields.drop_last();
        lemma_field_warnings_members(xml, rest, kind, w);
        let all = field_warnings(xml, fields, kind);
        let part = field_warnings(xml, rest, kind);
        if all.contains(w) {
            let k = choose|k: int| 0 <= k < all.len() && all[k] == w;
            if k < part.len() {
                assert(part[k] == w);
                let i = choose|i: int| 0 <= i < rest.len() && (#[trigger] rest[i])@ == w.1;
                assert(fields[i] == rest[i]);
            } else {
                assert(fields[fields.len() - 1]@ == w.1);
            }
        }
        if w.0 == kind && occurs_in(xml, tag_of(w.1)) && exists|i: int|
            0 <= i < fields.len() && (#[trigger] fields[i])@ == w.1 {
            let i = choose|i: int| 0 <= i < fields.len() && (#[trigger] fields[i])@ == w.1;
            if i < rest.len() {
                assert(rest[i] == fields[i]);
                let k = choose|k: int| 0 <= k < part.len() && part[k] == w;
                assert(all[k] == part[k]);
            } else {
                assert(all[all.len() - 1] == w);
            }
        }
    }
}

proof fn lemma_binding_warnings_members(targets: Seq<Seq<char>>, w: (WarningKind, Seq<char>))
    ensures
        binding_warnings(targets).contains(w) <==> (w.0 == WarningKind::InvalidMidiBindingTarget
            && targets.contains(w.1) && !is_valid_binding_target(w.1)),
    decreases targets.len(),
{
    if targets.len() > 0 {
        let rest = targets.drop_last();
        lemma_binding_warnings_members(rest, w);
        let all = binding_warnings(targets);
        let part = binding_warnings(rest);
        if all.contains(w) {
            let k = choose|k: int| 0 <= k < all.len() && all[k] == w;
            if k < part.len() {
                assert(part[k] == w);
                let i = choose|i: int| 0 <= i < rest.len() && rest[i] == w.1;
                assert(targets[i] == rest[i]);
            } else {
                assert(targets[targets.len() - 1] == w.1);
            }
        }
        if w.0 == WarningKind::InvalidMidiBindingTarget && targets.contains(w.1)
            && !is_valid_binding_target(w.1) {
            let i = choose|i: int| 0 <= i < targets.len() && targets[i] == w.1;
            if i < rest.len() {
                assert(rest[i] == targets[i]);
                let k = choose|k: int| 0 <= k < part.len() && part[k] == w;
                assert(all[k] == part[k]);
            } else {
                assert(all[all.len() - 1] == w);
            }
        }
    }
}

/// What a migration report says, warning by warning: a stale-field (or
/// inert-field) warning names a stale (or inert) field and is there exactly
/// when the field's opening tag occurs in the XML; an invalid-binding warning
/// is there exactly when the binding target is named in a
/// `configPropertyName` element and is not a known property, so a known
/// binding target is never reported.
pub proof fn lemma_report_warnings(xml: Seq<char>, field: Seq<char>)
    ensures
        spectrum_report(xml).contains((WarningKind::StaleField, field)) <==> (occurs_in(xml, seq!['<'] + field + seq!['>']) && exists|i: int| 0 <= i < stale_fields().len() && (#[trigger] stale_fields()[i])@ == field),
        spectrum_report(xml).contains((WarningKind::InertField, field)) <==> (occurs_in(xml, seq!['<'] + field + seq!['>']) && exists|i: int| 0 <= i < inert_fields().len() && (#[trigger] inert_fields()[i])@ == field),
        spectrum_report(xml).contains((WarningKind::InvalidMidiBindingTarget, field)) <==> (
        property_names(xml).contains(field) && !exists|i: int|
            0 <= i < valid_binding_targets().len() && (#[trigger] valid_binding_targets()[i])@
                == field),
{
    let stale = field_warnings(xml, stale_fields(), WarningKind::StaleField);
    let inert = field_warnings(xml, inert_fields(), WarningKind::InertField);
    let binding = binding_warnings(property_names(xml));
    let report = spectrum_report(xml);
    assert(report == stale + inert + binding);
    assert forall|w: (WarningKind, Seq<char>)| report.contains(w) <==> (stale.contains(w)
        || inert.contains(w) || binding.contains(w)) by {
        if report.contains(w) {
            let k = choose|k: int| 0 <= k < report.len() && report[k] == w;
            if k < stale.len() {
                assert(stale[k] == w);
            } else if k < stale.len() + inert.len() {
                assert(inert[k - stale.len()] == w);
            } else {
                assert(binding[k - stale.len() - inert.len()] == w);
            }
        }
        if stale.contains(w) {
            let k = choose|k: int| 0 <= k < stale.len() && stale[k] == w;
            assert(report[k] == w);
        }
        if inert.contains(w) {
            let k = choose|k: int| 0 <= k < inert.len() && inert[k] == w;
            assert(report[stale.len() + k] == w);
        }
        if binding.contains(w) {
            let k = choose|k: int| 0 <= k < binding.len() && binding[k] == w;
            assert(report[stale.len() + inert.len() + k] == w);
        }
    }
    lemma_field_warnings_members(xml, stale_fields(), WarningKind::StaleField, (WarningKind::StaleField, field));
    lemma_field_warnings_members(xml, inert_fields(), WarningKind::InertField, (WarningKind::StaleField, field));
    lemma_binding_warnings_members(property_names(xml), (WarningKind::StaleField, field));
    lemma_field_warnings_members(xml, stale_fields(), WarningKind::StaleField, (WarningKind::InertField, field));
    lemma_field_warnings_members(xml, inert_fields(), WarningKind::InertField, (WarningKind::InertField, field));
    lemma_binding_warnings_members(property_names(xml), (WarningKind::InertField, field));
    lemma_field_warnings_members(xml, stale_fields(), WarningKind::StaleField, (WarningKind::InvalidMidiBindingTarget, field));
    lemma_field_warnings_members(xml, inert_fields(), WarningKind::InertField, (WarningKind::InvalidMidiBindingTarget, field));
    lemma_binding_warnings_members(property_names(xml), (WarningKind::InvalidMidiBindingTarget, field));
}

/// No known binding target is ever reported: whatever the XML, for each of
/// the properties a MIDI binding may drive, the report holds no
/// invalid-binding warning naming it.
pub proof fn lemma_known_targets_never_reported(xml: Seq<char>)
    ensures
        forall|i: int|
            0 <= i < valid_binding_targets().len() ==> !spectrum_report(xml).contains(
                (WarningKind::InvalidMidiBindingTarget, (#[trigger] valid_binding_targets()[i])@),
            ),
{
    assert forall|i: int| 0 <= i < valid_binding_targets().len() implies !spectrum_report(
        xml,
    ).contains(
        (WarningKind::InvalidMidiBindingTarget, (#[trigger] valid_binding_targets()[i])@),
    ) by {
        lemma_report_warnings(xml, valid_binding_targets()[i]@);
        assert(is_valid_binding_target(valid_binding_targets()[i]@));
    }
}

/// `pat` found in `p + r` from position `p.len() + k` is `pat` found in `r`
/// from `k`, moved by `p.len()`.
proof fn lemma_find_shift(p: Seq<char>, r: Seq<char>, pat: Seq<char>, k: int)
    requires
        0 <= k,
    ensures
        find_from(p + r, pat, p.len() + k) == match find_from(r, pat, k) {
            Some(i) => Some(i + p.len()),
            None => None,
        },
    decreases r.len() - k,
{
    let x = p + r;
    if k + pat.len() <= r.len() {
        assert(x.subrange(p.len() + k, p.len() + k + pat.len()) =~= r.subrange(k, k + pat.len()));
        if r.subrange(k, k + pat.len()) != pat && k < r.len() {
            lemma_find_shift(p, r, pat, k + 1);
            assert(p.len() + k + 1 == p.len() + (k + 1));
        }
    }
}

/// A search for `pat` passes over positions that cannot start it.
proof fn lemma_find_skips(x: Seq<char>, pat: Seq<char>, s: int, e: int)
    requires
        0 <= s <= e,
        pat.len() > 0,
        forall|j: int| s <= j < e && j < x.len() ==> x[j] != pat[0],
    ensures
        find_from(x, pat, s) == find_from(x, pat, e),
    decreases e - s,
{
    if s < e {
        if s + pat.len() <= x.len() {
            assert(x.subrange(s, s + pat.len())[0] == x[s]);
            lemma_find_skips(x, pat, s + 1, e);
        } else {
            assert(find_from(x, pat, e) is None);
        }
    }
}

/// The binding targets of `p + r` read from `p.len() + k` are those of `r`
/// read from `k`.
proof fn lemma_names_shift(p: Seq<char>, r: Seq<char>, k: int)
    requires
        0 <= k <= r.len(),
    ensures
        property_names_from(p + r, p.len() + k) == property_names_from(r, k),
    decreases r.len() - k,
{
    let x = p + r;
    lemma_tag_lengths();
    lemma_find_shift(p, r, open_tag(), k);
    match find_from(r, open_tag(), k) {
        None => {},
        Some(start) => {
            lemma_find_from_first(r, open_tag(), k);
            let value_start = start + open_tag().len();
            lemma_find_shift(p, r, close_tag(), value_start);
            assert(p.len() + start + open_tag().len() == p.len() + value_start);
            match find_from(r, close_tag(), value_start) {
                None => {},
                Some(end) => {
                    lemma_find_from_first(r, close_tag(), value_start);
                    assert(x.subrange(p.len() + value_start, p.len() + end) =~= r.subrange(
                        value_start,
                        end,
                    ));
                    lemma_names_shift(p, r, end + close_tag().len());
                    assert(p.len() + end + close_tag().len() == p.len() + (end
                        + close_tag().len()));
                },
            }
        },
    }
}

/// How binding targets are read from XML: text without any `<` before the
/// first `<configPropertyName>` element is passed over, and an element
/// `<configPropertyName>t</configPropertyName>` whose text `t` holds no `<`
/// gives the target `t` trimmed, followed by the targets of the rest of the
/// XML. XML with no `<configPropertyName>` gives none.
pub proof fn lemma_property_names_read(
    before: Seq<char>,
    t: Seq<char>,
    rest: Seq<char>,
    xml: Seq<char>,
)
    requires
        forall|j: int| 0 <= j < before.len() ==> before[j] != '<',
        forall|j: int| 0 <= j < t.len() ==> t[j] != '<',
    ensures
        property_names(
            before + "<configPropertyName>"@ + t + "</configPropertyName>"@ + rest,
        ) == seq![trim(t)] + property_names(rest),
        !occurs_in(xml, "<configPropertyName>"@) ==> property_names(xml) == Seq::<
            Seq<char>,
        >::empty(),
{
    reveal_strlit("<configPropertyName>");
    reveal_strlit("</configPropertyName>");
    lemma_tag_lengths();
    let open = open_tag();
    let close = close_tag();
    let element = open + t + close;
    let r = element + rest;
    let x = before + r;
    assert(before + open + t + close + rest =~= x);
    // the element's own tags
    let a: int = open.len() as int;
    let b: int = a + t.len();
    let c: int = b + close.len();
    assert(r.subrange(0, a) =~= open);
    assert(find_from(r, open, 0) == Some(0int));
    assert forall|j: int| a <= j < b && j < r.len() implies r[j] != close[0] by {
        assert(r[j] == t[j - a]);
    }
    lemma_find_skips(r, close, a, b);
    assert(r.subrange(b, c) =~= close);
    assert(find_from(r, close, b) == Some(b));
    assert(r.subrange(a, b) =~= t);
    assert(element.len() == c);
    lemma_names_shift(element, rest, 0);
    assert(property_names_from(rest, 0) == property_names(rest));
    assert(property_names_from(r, 0) == seq![trim(t)] + property_names(rest));
    // the text before the element
    assert forall|j: int| 0 <= j < before.len() && j < x.len() implies x[j] != open[0] by {
        assert(x[j] == before[j]);
    }
    lemma_find_skips(x, open, 0, before.len() as int);
    lemma_names_shift(before, r, 0);
    assert(before.len() + 0 == before.len());
    assert(property_names_from(x, 0) == property_names_from(x, before.len() as int));
    // no element at all
    if !occurs_in(xml, open) {
        lemma_find_from_first(xml, open, 0);
    }
}

} // verus!
