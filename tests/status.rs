use inverse_design::counter::Counter;
use inverse_design::sparse::Point;
use inverse_design::status::{parse_status, Status};
use inverse_design::visualization::{render, visualize_mask, visualize_masks, visualize_status_arrays, Block, Color};
use inverse_design::brushes::Brush;
use inverse_design::design::Design;

#[test]
fn status_codes_and_labels() {
    assert_eq!(Status::from(0u8), Status::Unassigned);
    assert_eq!(Status::from(12u8), Status::TouchResolving);
    assert_eq!(Status::from(13u8), Status::Unknown);
    assert_eq!(Status::from(200u8), Status::Unknown);
    assert_eq!(Status::PixelRequired.label(), "PR");
    assert_eq!(Status::TouchResolving.label(), "Tr");
    assert_eq!(Status::Unassigned.label(), " U");
    assert_eq!(parse_status(&vec![1, 2, 99]), vec![Status::Void, Status::Solid, Status::Unknown]);
}

#[test]
fn colors_of_codes_and_statuses() {
    assert_eq!(Color::from_u8(0), Color::DarkWhite);
    assert_eq!(Color::from_u8(12), Color::Black);
    assert_eq!(Color::from_u8(13), Color::Transparent);
    assert_eq!(Block::from_status(&Status::TouchInvalid), Color::DarkBlue);
    assert_eq!(Block::from_status(&Status::Unknown), Color::Transparent);
    assert_eq!(Color::Transparent.to_string(), "  ");
    assert_eq!(Color::White.to_string(), "\x1b[0;97m\u{2588}\x1b[0m\x1b[0;97m\u{2588}\x1b[0m");
}

#[test]
fn render_breaks_rows() {
    let s = render(2, &vec![Color::Transparent, Color::Transparent, Color::Transparent]);
    assert_eq!(s, "    \n  ");
    let w = Color::White.to_string();
    let b = Color::BrightBlack.to_string();
    assert_eq!(visualize_mask((1, 2), &vec![true, false]), format!("{w}{b}\n"));
    let masks = vec![vec![true], vec![false]];
    assert_eq!(visualize_masks((1, 1), &masks), format!("{w}{b}\n"));
    let arrays = vec![vec![Status::Void]];
    assert_eq!(visualize_status_arrays((1, 1), &arrays), format!("{w}  \n"));
}

#[test]
fn brush_and_design_render() {
    let brush = Brush::notched_square(3, 0);
    let text = brush.visualize();
    assert_eq!(text.matches('\n').count(), 3);
    let d = Design::new((2, 3), Brush::notched_square(3, 0));
    let text = d.visualize();
    assert_eq!(text.matches('\n').count(), 2);
    let views = d.design_view();
    assert_eq!(views, vec![Status::Unassigned; 6]);
    assert_eq!(d.void_pixel_view(), vec![Status::PixelPossible; 6]);
    assert_eq!(d.solid_touches_view(), vec![Status::TouchValid; 6]);
}

#[test]
fn views_after_a_touch() {
    let mut d = Design::new((6, 8), Brush::notched_square(5, 1));
    d.add_void_touch((0, 6));
    assert_eq!(d.design_view()[6], Status::Void);
    assert_eq!(d.design_view()[0], Status::Unassigned);
    assert_eq!(d.void_pixel_view()[6], Status::PixelExisting);
    assert_eq!(d.solid_pixel_view()[6], Status::PixelImpossible);
    assert_eq!(d.void_touches_view()[6], Status::TouchExisting);
    assert_eq!(d.solid_touches_view()[6], Status::TouchInvalid);
}

#[test]
fn counter_counts() {
    let mut c = Counter { index: 0 };
    c.inc();
    c.inc();
    c.dec();
    assert!(c.eq(1));
    assert!(c.gt(0));
    assert_eq!(c.value(), 1);
}

#[test]
fn point_holds_coordinates() {
    let p = Point::new(3, 4);
    assert_eq!(p, Point { x: 3, y: 4 });
}
