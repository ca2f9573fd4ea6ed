use fgddem::dataset::{
    coordinate_words, grid_shape, parse_grid_pair, Capture, Corner, MetadataError,
    MetadataScanner, TextOutcome,
};
use fgddem::text::{tuple_list_values, IntErrorKind};
use quick_xml::events::Event;
use quick_xml::reader::Reader;

const TUPLE_LIST: &str = "地表面,145.30
                        地表面,145.10
                        地表面,144.90
                        地表面,144.90
                        地表面,144.84
                        地表面,144.81
                        地表面,121.90
                        内水面,-9999.
                        内水面,-9999.";

fn corner(text: &str) -> (f64, f64) {
    let (x, y) = coordinate_words(text).unwrap();
    (x.parse().unwrap(), y.parse().unwrap())
}

#[test]
fn test_parse() {
    let extent = (corner("0 0"), corner("2 2"));
    let low = parse_grid_pair("0 0").unwrap();
    let high = parse_grid_pair("2 2").unwrap();
    let values: Vec<f64> = tuple_list_values(TUPLE_LIST)
        .unwrap()
        .iter()
        .map(|v| v.parse().unwrap())
        .collect();
    assert_eq!(extent, ((0.0, 0.0), (2.0, 2.0)));
    assert_eq!(grid_shape(low, high), (3, 3));
    assert_eq!(
        &values,
        &vec![145.30, 145.10, 144.90, 144.90, 144.84, 144.81, 121.90, -9999., -9999.]
    );
}

#[test]
fn grid_shape_counts_both_ends() {
    assert_eq!(grid_shape((0, 0), (224, 149)), (225, 150));
    assert_eq!(grid_shape((5, 7), (5, 7)), (1, 1));
}

#[test]
fn grid_pair_needs_two_integers() {
    assert_eq!(parse_grid_pair("  224   149 "), Some((224, 149)));
    assert_eq!(parse_grid_pair("1 2 3"), Some((1, 2)));
    assert_eq!(parse_grid_pair("1"), None);
    assert_eq!(parse_grid_pair("1 x"), None);
    assert_eq!(parse_grid_pair("-1 2"), None);
}

#[test]
fn coordinate_words_takes_the_first_two() {
    assert_eq!(
        coordinate_words("35.0 138.75 9"),
        Some(("35.0".to_string(), "138.75".to_string()))
    );
    assert_eq!(coordinate_words("35.0"), None);
}

/// Feeds a scanner the start and text events of the elements `(name, text)`.
fn scan(elements: &[(&str, &str)]) -> Result<((usize, usize), (usize, usize)), MetadataError> {
    let mut s = MetadataScanner::new();
    for (name, text) in elements {
        s.on_start(name.as_bytes());
        s.on_text(text)?;
        if s.is_complete() {
            break;
        }
    }
    s.finish()
}

#[test]
fn scanner_missing_fields() {
    let err = scan(&[("root", ""), ("lowerCorner", "0 0")]).unwrap_err();
    assert_eq!(err, MetadataError::MissingUpperCorner);
    assert!(err.message().contains("missing"));
}

#[test]
fn scanner_reads_the_grid_limits() {
    let res = scan(&[
        ("description", "x"),
        ("lowerCorner", "35.0 138.75"),
        ("upperCorner", "35.00833333 138.7625"),
        ("low", "0 0"),
        ("high", "224 149"),
    ]);
    assert_eq!(res, Ok(((0, 0), (224, 149))));
}

#[test]
fn scanner_reports_missing_fields_in_order() {
    assert_eq!(scan(&[]), Err(MetadataError::MissingLowerCorner));
    assert_eq!(
        scan(&[("lowerCorner", "0 0"), ("upperCorner", "1 1")]),
        Err(MetadataError::MissingLow)
    );
    assert_eq!(
        scan(&[("lowerCorner", "0 0"), ("upperCorner", "1 1"), ("low", "0 0")]),
        Err(MetadataError::MissingHigh)
    );
    assert_eq!(MetadataError::MissingHigh.message(), "missing GridEnvelope/high");
}

#[test]
fn scanner_hands_back_corner_words() {
    let mut s = MetadataScanner::new();
    s.on_start(b"upperCorner");
    assert_eq!(s.capture, Capture::UpperCorner);
    match s.on_text("35.1 138.8").unwrap() {
        TextOutcome::Corner(c, x, y) => {
            assert_eq!(c, Corner::Upper);
            assert_eq!((x.as_str(), y.as_str()), ("35.1", "138.8"));
        }
        other => panic!("unexpected {:?}", other),
    }
    assert_eq!(s.capture, Capture::Idle);
    assert!(s.upper_seen && !s.lower_seen);
}

#[test]
fn scanner_refuses_a_bad_limit_and_ignores_short_text() {
    let mut s = MetadataScanner::new();
    s.on_start(b"low");
    assert_eq!(
        s.on_text("0 x").unwrap_err(),
        MetadataError::InvalidInteger(IntErrorKind::InvalidDigit)
    );
    let mut s = MetadataScanner::new();
    s.on_start(b"low");
    let err = s.on_text("99999999999999999999999 y").unwrap_err();
    assert_eq!(err, MetadataError::InvalidInteger(IntErrorKind::PosOverflow));
    assert_eq!(err.message(), "number too large to fit in target type");
    let mut s = MetadataScanner::new();
    s.on_start(b"high");
    assert!(matches!(s.on_text("7").unwrap(), TextOutcome::Ignored));
    assert_eq!(s.high, None);
    s.on_start(b"high");
    assert!(matches!(s.on_text("7 8").unwrap(), TextOutcome::Limit));
    assert_eq!(s.high, Some((7, 8)));
}

const DATASET_XML: &str = r#"<?xml version="1.0" encoding="UTF-8"?>
<Dataset xmlns:gml="http://www.opengis.net/gml/3.2" xmlns="http://fgd.gsi.go.jp/spec/2008/FGD_GMLSchema" gml:id="Dataset1">
	<gml:description>基盤地図情報メタデータ ID=fmdid:15-3101</gml:description>
	<DEM gml:id="DEM001">
		<mesh>52387400</mesh>
		<coverage gml:id="DEM001-3">
			<gml:boundedBy>
				<gml:Envelope srsName="fguuid:jgd2011.bl">
					<gml:lowerCorner>0 0</gml:lowerCorner>
					<gml:upperCorner>2 2</gml:upperCorner>
				</gml:Envelope>
			</gml:boundedBy>
			<gml:gridDomain>
				<gml:Grid dimension="2" gml:id="DEM001-4">
					<gml:limits>
						<gml:GridEnvelope>
							<gml:low>0 0</gml:low>
							<gml:high>2 2</gml:high>
						</gml:GridEnvelope>
					</gml:limits>
					<gml:axisLabels>x y</gml:axisLabels>
				</gml:Grid>
			</gml:gridDomain>
		</coverage>
	</DEM>
</Dataset>"#;

/// Runs the metadata scanner over the XML events of `xml`, as the converter does.
fn scan_xml(xml: &str) -> (Result<((usize, usize), (usize, usize)), MetadataError>, Option<(f64, f64)>, Option<(f64, f64)>) {
    let mut reader = Reader::from_str(xml);
    reader.config_mut().trim_text(true);
    let mut s = MetadataScanner::new();
    let (mut lower, mut upper) = (None, None);
    loop {
        match reader.read_event().unwrap() {
            Event::Start(e) => s.on_start(e.local_name().into_inner().as_bytes()),
            Event::Text(t) => match s.on_text(&t.xml10_content()) {
                Ok(TextOutcome::Corner(Corner::Lower, x, y)) => {
                    lower = Some((x.parse().unwrap(), y.parse().unwrap()))
                }
                Ok(TextOutcome::Corner(Corner::Upper, x, y)) => {
                    upper = Some((x.parse().unwrap(), y.parse().unwrap()))
                }
                Ok(_) => {}
                Err(e) => return (Err(e), lower, upper),
            },
            Event::Eof => break,
            _ => {}
        }
        if s.is_complete() {
            break;
        }
    }
    (s.finish(), lower, upper)
}

#[test]
fn scanner_reads_the_test_parse_document() {
    let (limits, lower, upper) = scan_xml(DATASET_XML);
    let (low, high) = limits.unwrap();
    // What the full parse of the same dataset gives (see test_parse).
    assert_eq!(grid_shape(low, high), (3, 3));
    assert_eq!((lower.unwrap(), upper.unwrap()), ((0.0, 0.0), (2.0, 2.0)));
}

#[test]
fn scanning_xml_without_limits_reports_the_first_missing_field() {
    let xml = r#"<?xml version="1.0" encoding="UTF-8"?>
<root xmlns:gml="http://www.opengis.net/gml/3.2">
  <gml:lowerCorner>0 0</gml:lowerCorner>
</root>"#;
    let (limits, lower, _) = scan_xml(xml);
    assert_eq!(limits, Err(MetadataError::MissingUpperCorner));
    assert_eq!(lower, Some((0.0, 0.0)));
}

#[test]
fn content_after_the_four_fields_is_not_read() {
    let doc = "<r><lowerCorner>0 0</lowerCorner><upperCorner>2 2</upperCorner><low>0 0</low><high>2 2</high>";
    let (a, la, ua) = scan_xml(&format!("{}<broken <<< &&& </r>", doc));
    let (b, lb, ub) = scan_xml(&format!("{}<tupleList>x</tupleList></r>", doc));
    assert_eq!(a, Ok(((0, 0), (2, 2))));
    assert_eq!((a, la, ua), (b, lb, ub));
}
