use ubuntu_drop::popover::{corner, parse_geometry};

#[test]
fn parses_an_xrandr_geometry() {
    assert_eq!(parse_geometry("1920x1200+0+0"), Some((1920, 1200, 0, 0)));
    assert_eq!(parse_geometry("2560x1440+1920+0"), Some((2560, 1440, 1920, 0)));
    assert_eq!(parse_geometry("nonsense"), None);
}

#[test]
fn accepts_signs_and_rejects_overflow() {
    assert_eq!(parse_geometry("800x600+-10+-20"), Some((800, 600, -10, -20)));
    assert_eq!(parse_geometry("+800x600+0+0"), None);
    assert_eq!(parse_geometry("800x600+2147483648+0"), None);
    assert_eq!(parse_geometry("4294967296x600+0+0"), None);
    assert_eq!(parse_geometry("800x+0+0"), None);
    assert_eq!(parse_geometry("800x600+0"), None);
    assert_eq!(parse_geometry("800x600+0+0+0"), None);
}

#[test]
fn popover_sits_under_the_panel_of_the_primary_monitor() {
    let xrandr = "Screen 0: minimum 320 x 200\nHDMI-1 connected 2560x1440+1920+0 (normal)\neDP-2 connected primary 1920x1200+0+0 (normal left inverted) 344mm x 215mm\n";
    assert_eq!(corner(xrandr), (1920 - 380 - 14, 42));
    let no_primary = "HDMI-1 connected 2560x1440+1920+0 (normal)\n";
    assert_eq!(corner(no_primary), (1920 + 2560 - 394, 42));
    assert_eq!(corner("nothing here"), (900, 42));
    assert_eq!(corner("X connected primary 1920x1200 (normal)\n"), (900, 42));
}

#[test]
fn negative_offsets_parse_and_malformed_ones_do_not() {
    assert_eq!(parse_geometry("1920x1080+-1920+0"), Some((1920, 1080, -1920, 0)));
    assert_eq!(parse_geometry("1920x1200"), None);
    assert_eq!(parse_geometry("1920x1200+0"), None);
    assert_eq!(parse_geometry("1920x1200+0+0+0"), None);
}
