use debug_canvas::DebugCanvas;
use debug_canvas::Options;

#[test]
fn test_blank_canvas() {
    let mut canvas = DebugCanvas::new();
    assert_eq!(canvas.render(), "");
    canvas.write((3, 2), '#');
    assert_eq!(canvas.render(), "#");
    canvas.write((3, 2), '.');
    assert_eq!(canvas.render(), ".");
    canvas.write((3, 3), '-');
    assert_eq!(canvas.render(), ".-");
    canvas.write((2, 3), 'a');
    assert_eq!(
        canvas.render(),
        "
.-
 a"
        .trim_start()
    );
    canvas.write((2, 5), 'b');
    assert_eq!(
        canvas.render(),
        "
.-  
 a b"
        .trim_start()
    );
    canvas.remove((2, 5));
    assert_eq!(
        canvas.render(),
        "
.-
 a"
        .trim_start()
    );
    canvas.remove((2, 8));
    assert_eq!(
        canvas.render(),
        "
.-
 a"
        .trim_start()
    );
}

#[test]
fn empty_grid_renders_empty() {
    let canvas = DebugCanvas::new();
    assert_eq!(canvas.render(), "");
    assert_eq!(canvas.size(), (0, 0));
    assert!(canvas.is_empty());
}

#[test]
fn default_grid_renders_empty() {
    let canvas = DebugCanvas::default();
    assert_eq!(canvas.render(), "");
    assert_eq!(canvas.size(), (0, 0));
}

#[test]
fn default_options() {
    let options = Options::default();
    assert!(!options.bottom_oriented);
    assert_eq!(options.filler, ' ');
}

#[test]
fn read_after_write() {
    let mut canvas = DebugCanvas::new();
    canvas.write((7, -4), 'q');
    assert_eq!(canvas.read((7, -4)), 'q');
    canvas.write((7, -4), 'z');
    assert_eq!(canvas.read((7, -4)), 'z');
}

#[test]
fn unwritten_coordinate_reads_filler() {
    let canvas = DebugCanvas::new();
    assert_eq!(canvas.read((0, 0)), ' ');
    assert_eq!(canvas.read((-1000, 1000)), ' ');
    let custom = DebugCanvas::with_options(Options {
        bottom_oriented: false,
        filler: '*',
    });
    assert_eq!(custom.read((5, 5)), '*');
}

#[test]
fn remove_restores_filler() {
    let mut canvas = DebugCanvas::new();
    canvas.write((2, 2), 'x');
    canvas.write((0, 0), 'y');
    canvas.remove((2, 2));
    assert_eq!(canvas.read((2, 2)), ' ');
    assert_eq!(canvas.size(), (1, 1));
    assert_eq!(canvas.render(), "y");
}

#[test]
fn remove_absent_is_noop() {
    let mut canvas = DebugCanvas::new();
    canvas.write((1, 1), 'c');
    canvas.remove((9, 9));
    assert_eq!(canvas.size(), (1, 1));
    assert_eq!(canvas.read((1, 1)), 'c');
    let mut empty = DebugCanvas::new();
    empty.remove((0, 0));
    assert_eq!(empty.size(), (0, 0));
    assert_eq!(empty.render(), "");
}

#[test]
fn size_tracks_tight_bounding_box() {
    let mut canvas = DebugCanvas::new();
    canvas.write((0, 0), 'a');
    assert_eq!(canvas.size(), (1, 1));
    canvas.write((2, 3), 'b');
    assert_eq!(canvas.size(), (3, 4));
    canvas.write((-1, -2), 'c');
    assert_eq!(canvas.size(), (4, 6));
    canvas.remove((-1, -2));
    assert_eq!(canvas.size(), (3, 4));
    canvas.remove((2, 3));
    assert_eq!(canvas.size(), (1, 1));
    canvas.remove((0, 0));
    assert_eq!(canvas.size(), (0, 0));
}

#[test]
fn writing_filler_still_occupies() {
    let mut canvas = DebugCanvas::new();
    canvas.write((5, 5), ' ');
    assert_eq!(canvas.size(), (1, 1));
    assert!(!canvas.is_empty());
    assert_eq!(canvas.render(), " ");
    canvas.remove((5, 5));
    assert_eq!(canvas.size(), (0, 0));
}

#[test]
fn clear_resets_and_keeps_configuration() {
    let mut canvas = DebugCanvas::with_options(Options {
        bottom_oriented: true,
        filler: '.',
    });
    canvas.write((0, 0), 'a');
    canvas.write((4, 4), 'b');
    canvas.clear();
    assert_eq!(canvas.size(), (0, 0));
    assert_eq!(canvas.render(), "");
    assert_eq!(canvas.read((0, 0)), '.');
    canvas.write((0, 0), 'x');
    canvas.write((1, 1), 'y');
    assert_eq!(canvas.render(), "x.\n.y");
}

#[test]
fn top_down_orientation_by_default() {
    let mut canvas = DebugCanvas::new();
    canvas.write((0, 0), 'a');
    canvas.write((1, 0), 'b');
    assert_eq!(canvas.render(), "b\na");
}

#[test]
fn bottom_oriented_rendering() {
    let mut canvas = DebugCanvas::with_options(Options {
        bottom_oriented: true,
        filler: ' ',
    });
    canvas.write((0, 0), 'a');
    canvas.write((1, 0), 'b');
    assert_eq!(canvas.render(), "a\nb");
}

#[test]
fn custom_filler_fills_gaps() {
    let mut canvas = DebugCanvas::with_options(Options {
        bottom_oriented: false,
        filler: '*',
    });
    canvas.write((0, 0), 'a');
    canvas.write((0, 2), 'b');
    assert_eq!(canvas.render(), "a*b");
}

#[test]
fn negative_coordinates() {
    let mut canvas = DebugCanvas::new();
    canvas.write((-2, -2), 'n');
    canvas.write((-4, -1), 'm');
    assert_eq!(canvas.size(), (3, 2));
    assert_eq!(canvas.render(), "n \n  \n m");
}
