use itree::color::{colors, str_eq, string_to_color, Color};
use itree::cursor::{new_cursor_bound_to_term, Cursor};
use itree::options::{ignore_result, render_method, validate_ignore, FsOptions, RenderMethod};
use itree::render::RenderOptions;

#[test]
fn options_start_with_their_defaults() {
    let o = FsOptions::new("here".to_owned());
    assert_eq!("here", o.root);
    assert_eq!(None, o.max_depth);
    assert!(!o.follow_links);
    assert_eq!(None, o.max_filesize);
    assert!(o.hidden);
    assert!(o.no_ignore);
    assert!(o.no_git_exclude);
    assert!(!o.only_dirs);
    assert!(o.custom_ignore.is_empty());
}

#[test]
fn options_are_set_one_after_the_other() {
    let mut o = FsOptions::new(".".to_owned());
    o.max_depth(Some(3))
        .follow_links(true)
        .max_filesize(Some(1 << 20))
        .hidden(false)
        .only_dirs(true)
        .no_ignore(false)
        .no_git_exclude(false)
        .add_custom_ignore("!target")
        .add_custom_ignore("!*.o")
        .root("elsewhere".to_owned());
    assert_eq!("elsewhere", o.root);
    assert_eq!(Some(3), o.max_depth);
    assert!(o.follow_links);
    assert_eq!(Some(1 << 20), o.max_filesize);
    assert!(!o.hidden);
    assert!(o.only_dirs);
    assert!(!o.no_ignore);
    assert!(!o.no_git_exclude);
    assert_eq!(vec!["!target".to_owned(), "!*.o".to_owned()], o.custom_ignore);
    o.max_depth(None);
    assert_eq!(None, o.max_depth);
    assert!(o.follow_links);
}

#[test]
fn quiet_goes_before_no_interaction() {
    assert_eq!(RenderMethod::JustSummary, render_method(true, false));
    assert_eq!(RenderMethod::JustSummary, render_method(true, true));
    assert_eq!(RenderMethod::NoInteractive, render_method(false, true));
    assert_eq!(RenderMethod::FullInteractive, render_method(false, false));
}

#[test]
fn ignore_patterns_are_checked() {
    assert_eq!(Ok(()), validate_ignore("*.rs"));
    assert_eq!(Ok(()), validate_ignore("!target/"));
    assert_eq!(Ok(()), validate_ignore(""));
    match validate_ignore("[z-a]") {
        Err(msg) => {
            assert!(msg.starts_with("Error parsing ignore: Glob {"), "{}", msg);
            assert!(msg.contains("[z-a]"));
        }
        Ok(()) => panic!("the range is backwards"),
    }
    assert!(validate_ignore("a[bc").is_err());
}

#[test]
fn verdicts_on_ignore_patterns() {
    assert_eq!(Ok(()), ignore_result(None));
    assert_eq!(
        Err("Error parsing ignore: bad".to_owned()),
        ignore_result(Some("bad".to_owned()))
    );
    assert_eq!(Err("Error parsing ignore: ".to_owned()), ignore_result(Some(String::new())));
}

#[test]
fn colours_by_name() {
    let names = colors();
    assert_eq!(16, names.len());
    assert_eq!("black", names[0]);
    assert_eq!("lightyellow", names[15]);
    let expected = [
        Color::Black,
        Color::Blue,
        Color::Cyan,
        Color::Green,
        Color::Magenta,
        Color::Red,
        Color::White,
        Color::Yellow,
        Color::LightBlack,
        Color::LightBlue,
        Color::LightCyan,
        Color::LightGreen,
        Color::LightMagenta,
        Color::LightRed,
        Color::LightWhite,
        Color::LightYellow,
    ];
    for (name, color) in names.iter().zip(expected.iter()) {
        assert_eq!(*color, string_to_color(name));
    }
}

#[test]
fn colours_select_their_place_in_the_palette() {
    assert_eq!("\x1b[38;5;0m", Color::Black.fg());
    assert_eq!("\x1b[38;5;4m", Color::Blue.fg());
    assert_eq!("\x1b[38;5;7m", Color::White.fg());
    assert_eq!("\x1b[38;5;15m", Color::LightWhite.fg());
    assert_eq!("\x1b[48;5;4m", Color::Blue.bg());
    assert_eq!("\x1b[48;5;9m", Color::LightRed.bg());
    assert_eq!("\x1b[48;5;12m", Color::LightBlue.bg());
    let codes: Vec<u8> = [
        Color::Black,
        Color::Red,
        Color::Green,
        Color::Yellow,
        Color::Blue,
        Color::Magenta,
        Color::Cyan,
        Color::White,
        Color::LightBlack,
        Color::LightRed,
        Color::LightGreen,
        Color::LightYellow,
        Color::LightBlue,
        Color::LightMagenta,
        Color::LightCyan,
        Color::LightWhite,
    ]
    .iter()
    .map(|c| c.ansi_code())
    .collect();
    assert_eq!((0..16).collect::<Vec<u8>>(), codes);
}

#[test]
fn texts_are_compared_by_what_they_hold() {
    assert!(str_eq("", ""));
    assert!(str_eq("blue", "blue"));
    assert!(!str_eq("blue", "blu"));
    assert!(!str_eq("blue", "glue"));
    assert!(!str_eq("é", "e"));
    assert!(str_eq("é├", "é├"));
}

#[test]
fn render_options_hold_two_colours() {
    let mut o = RenderOptions::new();
    assert_eq!(Color::White, o.fg_color);
    assert_eq!(Color::Blue, o.bg_color);
    o.fg_color(Color::Cyan).bg_color(Color::Magenta);
    assert_eq!(RenderOptions { fg_color: Color::Cyan, bg_color: Color::Magenta }, o);
}

#[test]
fn the_cursor_stays_within_its_bounds() {
    let mut c = Cursor { x: 2, y: 3, bound_t: 2, bound_b: 5, bound_l: 1, bound_r: 3 };
    c.up();
    assert_eq!(2, c.y);
    c.up();
    assert_eq!(2, c.y);
    c.down();
    c.down();
    assert_eq!(4, c.y);
    c.down();
    assert_eq!(4, c.y);
    c.left();
    assert_eq!(1, c.x);
    c.left();
    assert_eq!(1, c.x);
    c.right();
    c.right();
    assert_eq!(3, c.x);
    c.right();
    assert_eq!(3, c.x);
    assert_eq!((2, 5, 1, 3), (c.bound_t, c.bound_b, c.bound_l, c.bound_r));
}

#[test]
fn the_cursor_is_bound_to_the_terminal() {
    let c = new_cursor_bound_to_term(5, 80, 24);
    assert_eq!(Cursor { x: 1, y: 4, bound_t: 4, bound_b: 24, bound_l: 1, bound_r: 80 }, c);
    let c = new_cursor_bound_to_term(1, 1, 0);
    assert_eq!(Cursor { x: 1, y: 0, bound_t: 0, bound_b: 0, bound_l: 1, bound_r: 1 }, c);
}
