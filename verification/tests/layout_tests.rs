use gds_text::bitmap::Bitmap;
use gds_text::config::LayerConfig;
use gds_text::gds_out::Element;
use gds_text::layout::{build_layout_library, cell_name, LayoutCell};

#[test]
fn cell_names_are_zero_padded() {
    assert_eq!(cell_name(42), "C0000042");
    assert_eq!(cell_name(0), "C0000000");
    assert_eq!(cell_name(1234567), "C1234567");
    assert_eq!(cell_name(12345678), "C12345678");
    assert_eq!(cell_name(u64::MAX), format!("C{:07}", u64::MAX));
}

#[test]
fn one_cell_per_entry_and_a_top_cell() {
    let mut b = Bitmap::new(1, 2);
    b.set(0, 0, true);
    b.set(0, 1, true);
    let entries = vec![LayoutCell { id: 7, bitmap: b, x: 3, y: 4 }];
    let lib = build_layout_library(&entries, 100, 20, LayerConfig::default());
    assert_eq!(lib.name, "GDS_TEXT");
    assert_eq!(lib.cells.len(), 2);
    let cell = &lib.cells[0];
    assert_eq!(cell.name, "C0000007");
    assert_eq!(cell.elems.len(), 2);
    match &cell.elems[0] {
        Element::Boundary(bd) => {
            assert_eq!((bd.layer, bd.datatype), (68, 20));
            assert_eq!(bd.xy, vec![(0, 100), (100, 100), (100, 200), (0, 200), (0, 100)]);
        }
        _ => panic!("expected a boundary"),
    }
    match &cell.elems[1] {
        Element::Boundary(bd) => {
            assert_eq!(bd.xy, vec![(0, 0), (100, 0), (100, 100), (0, 100), (0, 0)]);
        }
        _ => panic!("expected a boundary"),
    }
    let top = &lib.cells[1];
    assert_eq!(top.name, "TOP");
    assert_eq!(top.elems.len(), 1);
    match &top.elems[0] {
        Element::CellRef(r) => {
            assert_eq!(r.name, "C0000007");
            assert_eq!((r.x, r.y), (300, 1400));
        }
        _ => panic!("expected a reference"),
    }
}

#[test]
fn reference_below_canvas_goes_negative() {
    let mut b = Bitmap::new(1, 5);
    b.set(0, 0, true);
    let entries = vec![LayoutCell { id: 1, bitmap: b, x: 0, y: 8 }];
    let lib = build_layout_library(&entries, 100, 10, LayerConfig::default());
    match &lib.cells[1].elems[0] {
        Element::CellRef(r) => assert_eq!((r.x, r.y), (0, -300)),
        _ => panic!("expected a reference"),
    }
}

#[test]
fn empty_layout_has_only_top() {
    let lib = build_layout_library(&[], 100, 10, LayerConfig::default());
    assert_eq!(lib.cells.len(), 1);
    assert_eq!(lib.cells[0].name, "TOP");
    assert!(lib.cells[0].elems.is_empty());
}
