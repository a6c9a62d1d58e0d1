use mkwebfont::fallbacks::{FontFace, FontId, FontIdAssigner, FontInfo, MissingCodepoints, SubsetAssigner};
use roaring::RoaringBitmap;

fn bitmap(values: &[u32]) -> RoaringBitmap {
    let mut b = RoaringBitmap::new();
    for &v in values {
        b.insert(v);
    }
    b
}

fn face(family: &str, codepoints: &[u32]) -> FontFace {
    FontFace::new(family.to_string(), "Regular".to_string(), "1.0".to_string(), bitmap(codepoints))
}

#[test]
fn font_info_copies_names() {
    let f = FontFace::new("Fam".to_string(), "Bold".to_string(), "2.1".to_string(), bitmap(&[1]));
    let info = FontInfo::for_font(&f);
    assert_eq!((info.0.as_str(), info.1.as_str(), info.2.as_str()), ("Fam", "Bold", "2.1"));
    assert_eq!(f.all_codepoints(), &bitmap(&[1]));
}

#[test]
fn every_new_id_is_zero() {
    assert_eq!(FontId::new(), FontId(0));
    let mut ids = FontIdAssigner::new();
    assert_eq!(ids.get_id(&face("A", &[])), FontId(0));
    assert_eq!(ids.get_id(&face("B", &[])), FontId(0));
    assert_eq!(ids.get_id(&face("A", &[])), FontId(0));
}

#[test]
fn stack_serves_each_code_point_from_the_first_font() {
    let mut assigner = SubsetAssigner::new();
    let fonts = vec![face("A", &[1, 2]), face("B", &[2, 3])];
    assert!(assigner.push_stack(bitmap(&[1, 2, 3]), &fonts).is_ok());
}

#[test]
fn missing_code_points_are_reported() {
    let mut assigner = SubsetAssigner::new();
    let fonts = vec![face("A", &[1]), face("B", &[2])];
    match assigner.push_stack(bitmap(&[1, 2, 3, 4]), &fonts) {
        Err(e) => {
            assert_eq!(e.count, 2);
            assert_eq!(e.stack, "A, B");
            assert_eq!(e.message(), "2 codepoints are not found in the font stack: A, B");
        }
        Ok(()) => panic!("expected an error"),
    }
}

#[test]
fn empty_stack_fails_for_nonempty_text() {
    let mut assigner = SubsetAssigner::new();
    let e = assigner.push_stack(bitmap(&[5]), &[]).err().unwrap();
    assert_eq!(e.count, 1);
    assert_eq!(e.stack, "");
}

#[test]
fn empty_text_is_always_served() {
    let mut assigner = SubsetAssigner::new();
    assert!(assigner.push_stack(RoaringBitmap::new(), &[face("A", &[])]).is_ok());
}

#[test]
fn error_message_formats_count_and_stack() {
    let e = MissingCodepoints { count: 12, stack: "X".to_string() };
    assert_eq!(e.message(), "12 codepoints are not found in the font stack: X");
}
