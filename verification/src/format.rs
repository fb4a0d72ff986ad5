//! The formatter: turns one stretch of captured text into display tokens.
//! Escape sequences give each run of the text its style, and the addresses
//! found inside a run become links.

use vstd::prelude::*;
use vstd::string::StringExecFns;

verus! {

/// The sixteen colours of the terminal palette.
#[derive(Clone, Copy, Debug, PartialEq, Eq, Structural)]
pub enum Colour {
    Black,
    Red,
    Green,
    Yellow,
    Blue,
    Magenta,
    Cyan,
    White,
    BrightBlack,
    BrightRed,
    BrightGreen,
    BrightYellow,
    BrightBlue,
    BrightMagenta,
    BrightCyan,
    BrightWhite,
}

/// How strongly a run of text is drawn.
#[derive(Clone, Copy, Debug, PartialEq, Eq, Structural)]
pub enum Emphasis {
    Normal,
    Bold,
    Faint,
}

/// A colour of the display, by its red, green and blue parts.
#[derive(Clone, Copy, Debug, PartialEq, Eq, Structural)]
pub struct Rgb {
    pub r: u8,
    pub g: u8,
    pub b: u8,
}

/// The display colour of each palette colour.
pub open spec fn palette(color: Colour) -> Rgb {
    match color {
        Colour::Black => Rgb { r: 0, g: 0, b: 0 },
        Colour::Red => Rgb { r: 205, g: 49, b: 49 },
        Colour::Green => Rgb { r: 13, g: 188, b: 121 },
        Colour::Yellow => Rgb { r: 229, g: 229, b: 16 },
        Colour::Blue => Rgb { r: 36, g: 114, b: 200 },
        Colour::Magenta => Rgb { r: 188, g: 63, b: 188 },
        Colour::Cyan => Rgb { r: 17, g: 168, b: 205 },
        Colour::White => Rgb { r: 229, g: 229, b: 229 },
        Colour::BrightBlack => Rgb { r: 102, g: 102, b: 102 },
        Colour::BrightRed => Rgb { r: 241, g: 76, b: 76 },
        Colour::BrightGreen => Rgb { r: 35, g: 209, b: 139 },
        Colour::BrightYellow => Rgb { r: 245, g: 245, b: 67 },
        Colour::BrightBlue => Rgb { r: 59, g: 142, b: 234 },
        Colour::BrightMagenta => Rgb { r: 214, g: 112, b: 214 },
        Colour::BrightCyan => Rgb { r: 41, g: 184, b: 219 },
        Colour::BrightWhite => Rgb { r: 229, g: 229, b: 229 },
    }
}

/// Looks a palette colour up in the table of display colours.
pub fn ansi_color_to_egui(color: Colour) -> (rgb: Rgb)
    ensures
        rgb == palette(color),
{
    match color {
        Colour::Black => Rgb { r: 0, g: 0, b: 0 },
        Colour::Red => Rgb { r: 205, g: 49, b: 49 },
        Colour::Green => Rgb { r: 13, g: 188, b: 121 },
        Colour::Yellow => Rgb { r: 229, g: 229, b: 16 },
        Colour::Blue => Rgb { r: 36, g: 114, b: 200 },
        Colour::Magenta => Rgb { r: 188, g: 63, b: 188 },
        Colour::Cyan => Rgb { r: 17, g: 168, b: 205 },
        Colour::White => Rgb { r: 229, g: 229, b: 229 },
        Colour::BrightBlack => Rgb { r: 102, g: 102, b: 102 },
        Colour::BrightRed => Rgb { r: 241, g: 76, b: 76 },
        Colour::BrightGreen => Rgb { r: 35, g: 209, b: 139 },
        Colour::BrightYellow => Rgb { r: 245, g: 245, b: 67 },
        Colour::BrightBlue => Rgb { r: 59, g: 142, b: 234 },
        Colour::BrightMagenta => Rgb { r: 214, g: 112, b: 214 },
        Colour::BrightCyan => Rgb { r: 41, g: 184, b: 219 },
        Colour::BrightWhite => Rgb { r: 229, g: 229, b: 229 },
    }
}

/// A run of text that shares one style.
#[derive(Debug, Clone, PartialEq, Eq)]
pub struct StyledRun {
    pub text: String,
    pub fg_colour: Colour,
    pub bg_colour: Colour,
    pub intensity: Emphasis,
    pub italic: bool,
    pub underline: bool,
    pub strikethrough: bool,
}

/// The mathematical content of a [`StyledRun`].
pub struct RunView {
    pub text: Seq<char>,
    pub fg_colour: Colour,
    pub bg_colour: Colour,
    pub intensity: Emphasis,
    pub italic: bool,
    pub underline: bool,
    pub strikethrough: bool,
}

impl View for StyledRun {
    type V = RunView;

    open spec fn view(&self) -> RunView {
        RunView {
            text: self.text@,
            fg_colour: self.fg_colour,
            bg_colour: self.bg_colour,
            intensity: self.intensity,
            italic: self.italic,
            underline: self.underline,
            strikethrough: self.strikethrough,
        }
    }
}

impl DeepView for StyledRun {
    type V = RunView;

    open spec fn deep_view(&self) -> RunView {
        self@
    }
}

/// What a span of a run is.
#[derive(Clone, Copy, Debug, PartialEq, Eq, Structural)]
pub enum SpanKind {
    /// Plain text.
    Plain,
    /// The address of a web page.
    Url,
    /// The address of a mailbox.
    Email,
}

/// A stretch of a run: an address, or the text between two addresses.
#[derive(Debug, Clone, PartialEq, Eq)]
pub struct Span {
    pub text: String,
    pub kind: SpanKind,
}

/// The mathematical content of a [`Span`].
pub struct SpanView {
    pub text: Seq<char>,
    pub kind: SpanKind,
}

impl View for Span {
    type V = SpanView;

    open spec fn view(&self) -> SpanView {
        SpanView { text: self.text@, kind: self.kind }
    }
}

impl DeepView for Span {
    type V = SpanView;

    open spec fn deep_view(&self) -> SpanView {
        self@
    }
}

/// How a label is drawn.
#[derive(Clone, Copy, Debug, PartialEq, Eq, Structural)]
pub struct Style {
    pub text_color: Rgb,
    /// The colour behind the text; `None` draws no background.
    pub background: Option<Rgb>,
    pub italics: bool,
    pub underline: bool,
    pub strikethrough: bool,
    pub intensity: Emphasis,
}

/// One unit of display.
#[derive(Debug, Clone, PartialEq, Eq)]
pub enum Token {
    /// A link, drawn in the link style of the display.
    Hyperlink { label: String, url: String },
    /// Text in a style of its own.
    Label { text: String, style: Style },
}

/// The mathematical content of a [`Token`].
pub enum TokenView {
    Hyperlink { label: Seq<char>, url: Seq<char> },
    Label { text: Seq<char>, style: Style },
}

impl View for Token {
    type V = TokenView;

    open spec fn view(&self) -> TokenView {
        match self {
            Token::Hyperlink { label, url } => TokenView::Hyperlink { label: label@, url: url@ },
            Token::Label { text, style } => TokenView::Label { text: text@, style: *style },
        }
    }
}

impl DeepView for Token {
    type V = TokenView;

    open spec fn deep_view(&self) -> TokenView {
        self@
    }
}

/// The style of the labels of a run. A black background is the background
/// of the display itself, so none is drawn.
pub open spec fn style_of(run: RunView) -> Style {
    Style {
        text_color: palette(run.fg_colour),
        background: if run.bg_colour == Colour::Black {
            None
        } else {
            Some(palette(run.bg_colour))
        },
        italics: run.italic,
        underline: run.underline,
        strikethrough: run.strikethrough,
        intensity: run.intensity,
    }
}

/// The token that shows one span of a run. An address becomes a link that
/// takes nothing of the style of the run; a mailbox is linked through the
/// `mailto` scheme. Anything else is a label in the style of the run.
pub open spec fn token_of(run: RunView, span: SpanView) -> TokenView {
    match span.kind {
        SpanKind::Url => TokenView::Hyperlink { label: span.text, url: span.text },
        SpanKind::Email => TokenView::Hyperlink { label: span.text, url: "mailto:"@ + span.text },
        SpanKind::Plain => TokenView::Label { text: span.text, style: style_of(run) },
    }
}

/// The tokens that show the spans of one run, in order.
pub open spec fn tokens_of_run(run: RunView, spans: Seq<SpanView>) -> Seq<TokenView> {
    Seq::new(spans.len(), |i: int| token_of(run, spans[i]))
}

/// Works out the style of the labels of a run.
pub fn resolve_style(run: &StyledRun) -> (style: Style)
    ensures
        style == style_of(run@),
{
    Style {
        text_color: ansi_color_to_egui(run.fg_colour),
        background: if run.bg_colour == Colour::Black {
            None
        } else {
            Some(ansi_color_to_egui(run.bg_colour))
        },
        italics: run.italic,
        underline: run.underline,
        strikethrough: run.strikethrough,
        intensity: run.intensity,
    }
}

/// Makes the token that shows one span of a run.
pub fn make_token(run: &StyledRun, span: Span) -> (token: Token)
    ensures
        token@ == token_of(run@, span@),
{
    match span.kind {
        SpanKind::Url => {
            let url = span.text.clone();
            Token::Hyperlink { label: span.text, url }
        },
        SpanKind::Email => {
            let url = String::from_str("mailto:").concat(span.text.as_str());
            Token::Hyperlink { label: span.text, url }
        },
        SpanKind::Plain => Token::Label { text: span.text, style: resolve_style(run) },
    }
}

/// Makes the tokens that show the spans of one run, and adds them to
/// `tokens`.
pub fn push_run_tokens(tokens: &mut Vec<Token>, run: &StyledRun, spans: Vec<Span>)
    ensures
        final(tokens).deep_view() == old(tokens).deep_view() + tokens_of_run(
            run@,
            spans.deep_view(),
        ),
{
    let ghost views = spans.deep_view();
    for span in it: spans
        invariant
            it.seq().len() == views.len(),
            forall|i: int| 0 <= i < views.len() ==> (#[trigger] it.seq()[i])@ == views[i],
            tokens.deep_view() == old(tokens).deep_view() + tokens_of_run(
                run@,
                views.take(it.index() as int),
            ),
    {
        let ghost before = tokens.deep_view();
        let token = make_token(run, span);
        tokens.push(token);
        assert(tokens.deep_view() == before.push(token@));
    }
}

/// `cansi::Color`, the colour of a slice as `cansi` reports it.
#[verifier::external_type_specification]
#[verifier::external_body]
pub struct ExAnsiColor(cansi::Color);

/// `cansi::Intensity`, the emphasis of a slice as `cansi` reports it.
#[verifier::external_type_specification]
#[verifier::external_body]
pub struct ExAnsiIntensity(cansi::Intensity);

/// Tells the variants of `cansi::Color` apart and gives each the palette
/// colour of the same name.
#[verifier::external_body]
fn color_of(color: cansi::Color) -> Colour {
    match color {
        cansi::Color::Black => Colour::Black, cansi::Color::Red => Colour::Red,
        cansi::Color::Green => Colour::Green, cansi::Color::Yellow => Colour::Yellow,
        cansi::Color::Blue => Colour::Blue, cansi::Color::Magenta => Colour::Magenta,
        cansi::Color::Cyan => Colour::Cyan, cansi::Color::White => Colour::White,
        cansi::Color::BrightBlack => Colour::BrightBlack,
        cansi::Color::BrightRed => Colour::BrightRed,
        cansi::Color::BrightGreen => Colour::BrightGreen,
        cansi::Color::BrightYellow => Colour::BrightYellow,
        cansi::Color::BrightBlue => Colour::BrightBlue,
        cansi::Color::BrightMagenta => Colour::BrightMagenta,
        cansi::Color::BrightCyan => Colour::BrightCyan,
        cansi::Color::BrightWhite => Colour::BrightWhite,
    }
}

/// Tells the variants of `cansi::Intensity` apart and gives each the
/// emphasis of the same name.
#[verifier::external_body]
fn intensity_of(intensity: cansi::Intensity) -> Emphasis {
    match intensity {
        cansi::Intensity::Normal => Emphasis::Normal,
        cansi::Intensity::Bold => Emphasis::Bold,
        cansi::Intensity::Faint => Emphasis::Faint,
    }
}

/// The runs that `cansi::categorise_text` finds in a text: the stretches
/// between escape sequences, in order. Each has the style that the escape
/// sequence directly before it sets, starting from the default style:
/// nothing of an earlier sequence carries over. A run before the first
/// sequence has the default style.
pub uninterp spec fn ansi_runs(text: Seq<char>) -> Seq<RunView>;

/// `cansi::categorise_text` splits `text` at its escape sequences. Each
/// slice that it returns is copied into a run, field by field.
#[verifier::external_body]
#[allow(deprecated)]
fn categorise(text: &str) -> (runs: Vec<StyledRun>)
    ensures
        runs.deep_view() == ansi_runs(text@),
{
    cansi::categorise_text(text).into_iter().map(|slice| StyledRun {
        text: slice.text.to_string(),
        fg_colour: color_of(slice.fg_colour),
        bg_colour: color_of(slice.bg_colour),
        intensity: intensity_of(slice.intensity),
        italic: slice.italic,
        underline: slice.underline,
        strikethrough: slice.strikethrough,
    }).collect()
}

/// The spans that the link finder of `linkify`, with its default options,
/// finds in a text.
pub uninterp spec fn link_spans(text: Seq<char>) -> Seq<SpanView>;

/// The texts of `spans`, one behind the other.
pub open spec fn spelled(spans: Seq<SpanView>) -> Seq<char>
    decreases spans.len(),
{
    if spans.len() == 0 {
        Seq::empty()
    } else {
        spelled(spans.drop_last()) + spans.last().text
    }
}

/// `LinkFinder::new().spans(text)` of `linkify` cuts `text` into addresses
/// and the text between them. The spans follow one another, and together
/// they are the whole text.
#[verifier::external_body]
fn find_spans(text: &str) -> (spans: Vec<Span>)
    ensures
        spans.deep_view() == link_spans(text@),
        spelled(spans.deep_view()) == text@,
{
    linkify::LinkFinder::new().spans(text).map(|span| Span {
        text: span.as_str().to_string(),
        kind: match span.kind() {
            Some(linkify::LinkKind::Url) => SpanKind::Url,
            Some(linkify::LinkKind::Email) => SpanKind::Email,
            _ => SpanKind::Plain,
        },
    }).collect()
}

/// The text that a token shows.
pub open spec fn token_text(token: TokenView) -> Seq<char> {
    match token {
        TokenView::Hyperlink { label, url } => label,
        TokenView::Label { text, style } => text,
    }
}

/// The text that `tokens` show, one behind the other.
pub open spec fn shown_text(tokens: Seq<TokenView>) -> Seq<char>
    decreases tokens.len(),
{
    if tokens.len() == 0 {
        Seq::empty()
    } else {
        shown_text(tokens.drop_last()) + token_text(tokens.last())
    }
}

/// The texts of `runs`, one behind the other.
pub open spec fn run_texts(runs: Seq<RunView>) -> Seq<char>
    decreases runs.len(),
{
    if runs.len() == 0 {
        Seq::empty()
    } else {
        run_texts(runs.drop_last()) + runs.last().text
    }
}

/// Tokens put one behind the other show their texts one behind the other.
pub proof fn lemma_shown_text_concat(a: Seq<TokenView>, b: Seq<TokenView>)
    ensures
        shown_text(a + b) == shown_text(a) + shown_text(b),
    decreases b.len(),
{
    if b.len() > 0 {
        lemma_shown_text_concat(a, b.drop_last());
        assert((a + b).drop_last() == a + b.drop_last());
    }
}

/// The tokens of a run show what its spans hold, whatever their kinds and
/// whatever the style of the run.
pub proof fn lemma_tokens_show_spans(run: RunView, spans: Seq<SpanView>)
    ensures
        shown_text(tokens_of_run(run, spans)) == spelled(spans),
    decreases spans.len(),
{
    if spans.len() > 0 {
        lemma_tokens_show_spans(run, spans.drop_last());
        assert(tokens_of_run(run, spans).drop_last() == tokens_of_run(run, spans.drop_last()));
    }
}

/// The tokens that show `runs`, in order: for each run, the tokens of the
/// spans that the link finder cuts its text into.
pub open spec fn tokens_of_runs(runs: Seq<RunView>) -> Seq<TokenView>
    decreases runs.len(),
{
    if runs.len() == 0 {
        Seq::empty()
    } else {
        tokens_of_runs(runs.drop_last()) + tokens_of_run(
            runs.last(),
            link_spans(runs.last().text),
        )
    }
}

/// Whether `run` has the default style: white on black, of normal
/// intensity, with no decoration.
pub open spec fn is_default_run(run: RunView) -> bool {
    &&& run.fg_colour == Colour::White
    &&& run.bg_colour == Colour::Black
    &&& run.intensity == Emphasis::Normal
    &&& !run.italic
    &&& !run.underline
    &&& !run.strikethrough
}

/// The style of a label that nothing sets apart: the white of the palette,
/// no background, normal intensity, no decoration.
pub open spec fn plain_style() -> Style {
    Style {
        text_color: palette(Colour::White),
        background: None,
        italics: false,
        underline: false,
        strikethrough: false,
        intensity: Emphasis::Normal,
    }
}

/// Every label of a run in the default style has the plain style.
pub proof fn lemma_default_run_is_plain(run: RunView, spans: Seq<SpanView>)
    requires
        is_default_run(run),
    ensures
        forall|i: int|
            0 <= i < spans.len() ==> match #[trigger] tokens_of_run(run, spans)[i] {
                TokenView::Label { text, style } => style == plain_style(),
                TokenView::Hyperlink { label, url } => true,
            },
{
}

/// Two runs are shown one after the other, each in its own style: the
/// tokens of the first run, then those of the second, and nothing of the
/// first run's style reaches the second.
pub proof fn lemma_two_runs(first: RunView, second: RunView)
    ensures
        tokens_of_runs(seq![first, second]) == tokens_of_run(first, link_spans(first.text))
            + tokens_of_run(second, link_spans(second.text)),
{
    let both = seq![first, second];
    assert(both.drop_last() == seq![first]);
    let alone = tokens_of_run(first, link_spans(first.text));
    assert(seq![first].drop_last() == Seq::<RunView>::empty());
    assert(tokens_of_runs(seq![first].drop_last()) == Seq::<TokenView>::empty());
    assert(Seq::<TokenView>::empty() + alone == alone);
    assert(tokens_of_runs(seq![first]) == alone);
}

/// Makes the tokens that show `runs`: looks for addresses in each run and
/// turns its spans into tokens.
pub fn format_runs(runs: &Vec<StyledRun>) -> (tokens: Vec<Token>)
    ensures
        tokens.deep_view() == tokens_of_runs(runs.deep_view()),
        shown_text(tokens.deep_view()) == run_texts(runs.deep_view()),
{
    let mut tokens: Vec<Token> = Vec::new();
    let mut i: usize = 0;
    while i < runs.len()
        invariant
            i <= runs.len(),
            tokens.deep_view() == tokens_of_runs(runs.deep_view().take(i as int)),
            shown_text(tokens.deep_view()) == run_texts(runs.deep_view().take(i as int)),
        decreases runs.len() - i,
    {
        let spans = find_spans(runs[i].text.as_str());
        proof {
            assert(runs.deep_view().take(i + 1).drop_last() == runs.deep_view().take(i as int));
            lemma_tokens_show_spans(runs[i as int]@, spans.deep_view());
            lemma_shown_text_concat(
                tokens.deep_view(),
                tokens_of_run(runs[i as int]@, spans.deep_view()),
            );
        }
        push_run_tokens(&mut tokens, &runs[i], spans);
        i = i + 1;
    }
    proof {
        assert(runs.deep_view().take(runs.len() as int) == runs.deep_view());
    }
    tokens
}

/// The tokens that show a text.
pub open spec fn tokens_of_text(text: Seq<char>) -> Seq<TokenView> {
    tokens_of_runs(ansi_runs(text))
}

/// Makes the tokens that show `text`: resolves its escape sequences into
/// styled runs, and each run into links and labels.
pub fn format_output(text: &str) -> (tokens: Vec<Token>)
    ensures
        tokens.deep_view() == tokens_of_text(text@),
        shown_text(tokens.deep_view()) == run_texts(ansi_runs(text@)),
{
    let runs = categorise(text);
    format_runs(&runs)
}

} // verus!
