use klask::format::{
    ansi_color_to_egui, format_output, format_runs, make_token, push_run_tokens, resolve_style,
    Colour, Emphasis, Rgb, Span, SpanKind, Style, StyledRun, Token,
};

fn rgb(r: u8, g: u8, b: u8) -> Rgb {
    Rgb { r, g, b }
}

fn plain_style() -> Style {
    Style {
        text_color: rgb(229, 229, 229),
        background: None,
        italics: false,
        underline: false,
        strikethrough: false,
        intensity: Emphasis::Normal,
    }
}

fn label(text: &str, style: Style) -> Token {
    Token::Label { text: text.to_string(), style }
}

fn run(text: &str) -> StyledRun {
    StyledRun {
        text: text.to_string(),
        fg_colour: Colour::White,
        bg_colour: Colour::Black,
        intensity: Emphasis::Normal,
        italic: false,
        underline: false,
        strikethrough: false,
    }
}

#[test]
fn palette_table() {
    assert_eq!(ansi_color_to_egui(Colour::Black), rgb(0, 0, 0));
    assert_eq!(ansi_color_to_egui(Colour::Red), rgb(205, 49, 49));
    assert_eq!(ansi_color_to_egui(Colour::Green), rgb(13, 188, 121));
    assert_eq!(ansi_color_to_egui(Colour::Yellow), rgb(229, 229, 16));
    assert_eq!(ansi_color_to_egui(Colour::Blue), rgb(36, 114, 200));
    assert_eq!(ansi_color_to_egui(Colour::Magenta), rgb(188, 63, 188));
    assert_eq!(ansi_color_to_egui(Colour::Cyan), rgb(17, 168, 205));
    assert_eq!(ansi_color_to_egui(Colour::White), rgb(229, 229, 229));
    assert_eq!(ansi_color_to_egui(Colour::BrightBlack), rgb(102, 102, 102));
    assert_eq!(ansi_color_to_egui(Colour::BrightRed), rgb(241, 76, 76));
    assert_eq!(ansi_color_to_egui(Colour::BrightGreen), rgb(35, 209, 139));
    assert_eq!(ansi_color_to_egui(Colour::BrightYellow), rgb(245, 245, 67));
    assert_eq!(ansi_color_to_egui(Colour::BrightBlue), rgb(59, 142, 234));
    assert_eq!(ansi_color_to_egui(Colour::BrightMagenta), rgb(214, 112, 214));
    assert_eq!(ansi_color_to_egui(Colour::BrightCyan), rgb(41, 184, 219));
    assert_eq!(ansi_color_to_egui(Colour::BrightWhite), rgb(229, 229, 229));
}

#[test]
fn text_without_escapes_is_one_plain_label() {
    assert_eq!(format_output("just text\n"), vec![label("just text\n", plain_style())]);
}

#[test]
fn empty_text_has_no_tokens() {
    assert_eq!(format_output(""), vec![]);
}

#[test]
fn bold_red_then_reset() {
    let tokens = format_output("\x1b[1;31mbold red\x1b[0mplain");
    assert_eq!(
        tokens,
        vec![
            label(
                "bold red",
                Style {
                    text_color: rgb(205, 49, 49),
                    intensity: Emphasis::Bold,
                    ..plain_style()
                }
            ),
            label("plain", plain_style()),
        ]
    );
}

#[test]
fn every_foreground_colour_is_told_apart() {
    let codes = [
        (30, Colour::Black), (31, Colour::Red), (32, Colour::Green), (33, Colour::Yellow),
        (34, Colour::Blue), (35, Colour::Magenta), (36, Colour::Cyan), (37, Colour::White),
        (90, Colour::BrightBlack), (91, Colour::BrightRed), (92, Colour::BrightGreen),
        (93, Colour::BrightYellow), (94, Colour::BrightBlue), (95, Colour::BrightMagenta),
        (96, Colour::BrightCyan), (97, Colour::BrightWhite),
    ];
    for (code, colour) in codes {
        let tokens = format_output(&format!("\x1b[{}mx", code));
        assert_eq!(
            tokens,
            vec![label("x", Style { text_color: ansi_color_to_egui(colour), ..plain_style() })],
            "{}",
            code
        );
    }
}

#[test]
fn background_is_drawn_unless_black() {
    let tokens = format_output("\x1b[44mon blue\x1b[40mon black\x1b[107mon white");
    assert_eq!(
        tokens,
        vec![
            label("on blue", Style { background: Some(rgb(36, 114, 200)), ..plain_style() }),
            label("on black", plain_style()),
            label("on white", Style { background: Some(rgb(229, 229, 229)), ..plain_style() }),
        ]
    );
}

#[test]
fn decorations_and_faint() {
    let tokens = format_output("\x1b[3mi\x1b[4mu\x1b[9ms\x1b[2mf");
    assert_eq!(
        tokens,
        vec![
            label("i", Style { italics: true, ..plain_style() }),
            label("u", Style { underline: true, ..plain_style() }),
            label("s", Style { strikethrough: true, ..plain_style() }),
            label("f", Style { intensity: Emphasis::Faint, ..plain_style() }),
        ]
    );
}

#[test]
fn link_takes_nothing_of_the_style() {
    let red = Style { text_color: rgb(205, 49, 49), intensity: Emphasis::Bold, ..plain_style() };
    let tokens = format_output("\x1b[1;31msee https://example.com now");
    assert_eq!(
        tokens,
        vec![
            label("see ", red),
            Token::Hyperlink {
                label: "https://example.com".to_string(),
                url: "https://example.com".to_string()
            },
            label(" now", red),
        ]
    );
}

#[test]
fn mailbox_is_linked_through_mailto() {
    let tokens = format_output("write to someone@example.org.");
    assert_eq!(
        tokens,
        vec![
            label("write to ", plain_style()),
            Token::Hyperlink {
                label: "someone@example.org".to_string(),
                url: "mailto:someone@example.org".to_string()
            },
            label(".", plain_style()),
        ]
    );
}

#[test]
fn tokens_show_the_text_without_its_escapes() {
    let tokens = format_output("a \x1b[32mhttp://x.org/y?z=1\x1b[0m, b@c.de \x1b[1mend\x1b[0m\n");
    let shown: String = tokens
        .iter()
        .map(|token| match token {
            Token::Hyperlink { label, .. } => label.as_str(),
            Token::Label { text, .. } => text.as_str(),
        })
        .collect();
    assert_eq!(shown, "a http://x.org/y?z=1, b@c.de end\n");
}

#[test]
fn style_of_a_run() {
    let styled = StyledRun {
        text: "t".to_string(),
        fg_colour: Colour::BrightCyan,
        bg_colour: Colour::Yellow,
        intensity: Emphasis::Faint,
        italic: true,
        underline: false,
        strikethrough: true,
    };
    assert_eq!(
        resolve_style(&styled),
        Style {
            text_color: rgb(41, 184, 219),
            background: Some(rgb(229, 229, 16)),
            italics: true,
            underline: false,
            strikethrough: true,
            intensity: Emphasis::Faint,
        }
    );
    assert_eq!(resolve_style(&run("t")), plain_style());
}

#[test]
fn token_of_each_kind_of_span() {
    let styled = StyledRun { fg_colour: Colour::Green, underline: true, ..run("whole run") };
    let span = |text: &str, kind| Span { text: text.to_string(), kind };
    assert_eq!(
        make_token(&styled, span("u", SpanKind::Url)),
        Token::Hyperlink { label: "u".to_string(), url: "u".to_string() }
    );
    assert_eq!(
        make_token(&styled, span("a@b.c", SpanKind::Email)),
        Token::Hyperlink { label: "a@b.c".to_string(), url: "mailto:a@b.c".to_string() }
    );
    assert_eq!(
        make_token(&styled, span("p", SpanKind::Plain)),
        label("p", Style { text_color: rgb(13, 188, 121), underline: true, ..plain_style() })
    );
}

#[test]
fn run_tokens_are_added_behind_what_is_there() {
    let mut tokens = vec![label("first", plain_style())];
    let spans = vec![
        Span { text: "x ".to_string(), kind: SpanKind::Plain },
        Span { text: "http://y.z".to_string(), kind: SpanKind::Url },
    ];
    push_run_tokens(&mut tokens, &run("x http://y.z"), spans);
    assert_eq!(
        tokens,
        vec![
            label("first", plain_style()),
            label("x ", plain_style()),
            Token::Hyperlink { label: "http://y.z".to_string(), url: "http://y.z".to_string() },
        ]
    );
}

#[test]
fn runs_are_formatted_in_order() {
    let runs = vec![
        StyledRun { fg_colour: Colour::Red, ..run("mail me@home.org") },
        run(" or not"),
    ];
    assert_eq!(
        format_runs(&runs),
        vec![
            label("mail ", Style { text_color: rgb(205, 49, 49), ..plain_style() }),
            Token::Hyperlink {
                label: "me@home.org".to_string(),
                url: "mailto:me@home.org".to_string()
            },
            label(" or not", plain_style()),
        ]
    );
}

#[test]
fn only_the_sequence_directly_before_a_run_counts() {
    let tokens = format_output("\x1b[1m\x1b[31mred, not bold\x1b[4munderlined, not red");
    assert_eq!(
        tokens,
        vec![
            label("red, not bold", Style { text_color: rgb(205, 49, 49), ..plain_style() }),
            label("underlined, not red", Style { underline: true, ..plain_style() }),
        ]
    );
}
