use domers::migration::{analyze_spectrum_xml, WarningKind};

/// An excerpt of a default Spectrum configuration: stale hue and beat
/// detector fields, an inert auto-flash delay, live link outputs and MIDI
/// bindings, two of which target the stale beat thresholds.
const SPECTRUM_DEFAULT_CONFIG: &str = r#"<?xml version="1.0" encoding="utf-8"?>
<SpectrumConfiguration>
  <huesEnabled>false</huesEnabled>
  <hueURL>http://192.168.1.26/api</hueURL>
  <kickT>0.2</kickT>
  <snareT>0.3</snareT>
  <domeAutoFlashDelay>1000</domeAutoFlashDelay>
  <humanLinkOutput>true</humanLinkOutput>
  <madmomLinkOutput>false</madmomLinkOutput>
  <domeBrightness>0.5</domeBrightness>
  <midiPresets>
    <MidiBinding>
      <configPropertyName>domeBrightness</configPropertyName>
    </MidiBinding>
    <MidiBinding>
      <configPropertyName>kickT</configPropertyName>
    </MidiBinding>
    <MidiBinding>
      <configPropertyName> snareT </configPropertyName>
    </MidiBinding>
  </midiPresets>
</SpectrumConfiguration>
"#;

#[test]
fn warns_for_default_config_stale_fields_and_broken_bindings() {
    let xml = SPECTRUM_DEFAULT_CONFIG;
    let report = analyze_spectrum_xml(xml);

    assert!(report.contains(WarningKind::StaleField, "huesEnabled"));
    assert!(report.contains(WarningKind::StaleField, "kickT"));
    assert!(report.contains(WarningKind::StaleField, "snareT"));
    assert!(report.contains(WarningKind::InertField, "domeAutoFlashDelay"));
    assert!(!report.contains(WarningKind::InertField, "humanLinkOutput"));
    assert!(!report.contains(WarningKind::InertField, "madmomLinkOutput"));
    assert!(report.contains(WarningKind::InvalidMidiBindingTarget, "kickT"));
    assert!(report.contains(WarningKind::InvalidMidiBindingTarget, "snareT"));
}

#[test]
fn accepts_known_live_binding_targets() {
    let xml = "<configPropertyName>domeBrightness</configPropertyName>";
    let report = analyze_spectrum_xml(xml);

    assert!(!report.contains(WarningKind::InvalidMidiBindingTarget, "domeBrightness"));
}

#[test]
fn report_lists_stale_then_inert_then_bindings_in_order() {
    let report = analyze_spectrum_xml(SPECTRUM_DEFAULT_CONFIG);
    let seen: Vec<(WarningKind, String)> = report
        .warnings
        .iter()
        .map(|w| (w.kind, w.field.clone()))
        .collect();
    assert_eq!(
        seen,
        vec![
            (WarningKind::StaleField, "huesEnabled".to_string()),
            (WarningKind::StaleField, "hueURL".to_string()),
            (WarningKind::StaleField, "kickT".to_string()),
            (WarningKind::StaleField, "snareT".to_string()),
            (WarningKind::InertField, "domeAutoFlashDelay".to_string()),
            (WarningKind::InvalidMidiBindingTarget, "kickT".to_string()),
            (WarningKind::InvalidMidiBindingTarget, "snareT".to_string()),
        ]
    );
}

#[test]
fn a_field_only_counts_as_an_opening_tag() {
    let report = analyze_spectrum_xml("<kickTime>1</kickTime> kickT </kickT>");
    assert!(report.warnings.is_empty());
    assert!(!report.contains(WarningKind::StaleField, "kickT"));
}

#[test]
fn unterminated_binding_stops_the_scan() {
    let xml = "<configPropertyName>bogus</configPropertyName><configPropertyName>other";
    let report = analyze_spectrum_xml(xml);
    assert_eq!(report.warnings.len(), 1);
    assert!(report.contains(WarningKind::InvalidMidiBindingTarget, "bogus"));
    assert!(!report.contains(WarningKind::InvalidMidiBindingTarget, "other"));
}

#[test]
fn binding_targets_are_trimmed_of_unicode_whitespace() {
    let xml = "<configPropertyName>\u{3000}\t flashSpeed\n\u{a0}</configPropertyName>\
               <configPropertyName></configPropertyName>";
    let report = analyze_spectrum_xml(xml);
    assert_eq!(report.warnings.len(), 1);
    assert!(report.contains(WarningKind::InvalidMidiBindingTarget, ""));
}

#[test]
fn empty_document_has_no_warnings() {
    assert!(analyze_spectrum_xml("").warnings.is_empty());
}
