//! What is on screen, and where.

use crate::editor::highlights::Severity;
use crate::editor::layout::{last_row_texts, layer_if, layers_of, message_columns, pending, signs_at,
    view_laid_out, BufferLine, Layer, Screen, Shown, ViewFacts, KEY_WIDTH, SIGN_WIDTH};
use crate::graphics::Rect;
use crate::text::decimal;
use crate::theme::ThemeStyles;
use vstd::prelude::*;

verus! {

/// The tabs are drawn always, never, or with more than one file open, as they are set to, and
/// stand right above the views, as wide as those are.
pub proof fn the_tabs_stand_over_the_views(screen: Screen, wanted: u16)
    requires
        screen.area.fits(),
        screen.bufferline_height < screen.area.height,
    ensures
        ({
            let panels = screen.panels(wanted);
            let asked = screen.bufferline == BufferLine::Always || (screen.bufferline
                == BufferLine::Multiple && screen.documents > 1);
            &&& panels.strip is Some ==> asked
            &&& asked && !screen.code_hidden && !screen.nothing_open ==> panels.strip is Some
            &&& panels.strip matches Some(strip) ==> {
                &&& strip.x == panels.views.x && strip.width == panels.views.width
                &&& strip.y == screen.area.y
                &&& strip.y + strip.height == panels.views.y
            }
            &&& !asked ==> panels.views.y == screen.area.y
        }),
{
}

/// What is looked at is what is shown: nothing behind a sidebar that has the screen, the
/// preview that fills it, the welcome with nothing open, and the views otherwise; a preview
/// stands beside views and nothing else.
pub proof fn one_thing_is_shown(screen: Screen, wanted: u16)
    ensures
        ({
            let panels = screen.panels(wanted);
            &&& panels.shown == Shown::Hidden <==> screen.code_hidden
            &&& panels.shown == Shown::Welcome <==> !screen.code_hidden && !screen.full_preview
                && screen.nothing_open
            &&& panels.shown == Shown::FullPreview <==> !screen.code_hidden && screen.full_preview
            &&& panels.preview is Some ==> panels.shown == Shown::Views
            &&& panels.sidebar is Some <==> screen.sidebar_open
        }),
{
}

/// The sidebar has the columns it wants as long as the text keeps its room, all of them where
/// the code is hidden, and none of the text's where it is closed.
pub proof fn the_text_keeps_its_room(screen: Screen, wanted: u16)
    requires
        screen.area.fits(),
    ensures
        ({
            let panels = screen.panels(wanted);
            let room = screen.beside_sidebar();
            &&& panels.sidebar matches Some(sidebar) ==> {
                &&& sidebar.x == screen.area.x && sidebar.y == screen.area.y
                &&& screen.code_hidden ==> sidebar.width == screen.area.width
                &&& !screen.code_hidden && screen.sidebar_width + screen.editor_room
                    <= screen.area.width ==> sidebar.width == screen.sidebar_width
                &&& !screen.code_hidden && screen.editor_room <= screen.area.width
                    ==> sidebar.width + screen.editor_room <= screen.area.width
            }
            &&& !screen.sidebar_open ==> room.x == screen.area.x && room.width == screen.area.width
            &&& panels.preview matches Some(preview) ==> (wanted <= room.width ==> preview.width
                == wanted) && preview.width > 0
            &&& panels.preview is None && panels.shown == Shown::Views ==> panels.views.width
                == room.width
        }),
{
}

/// How far up a layer lies.
pub open spec fn height(layer: Layer) -> int {
    match layer {
        Layer::Review => 0,
        Layer::Syntax => 1,
        Layer::Rainbow => 2,
        Layer::Links => 3,
        Layer::Diagnostics => 4,
        Layer::ServerMarks => 5,
        Layer::Tabstops => 6,
        Layer::Selections => 7,
        Layer::Bracket => 8,
    }
}

/// Layers that lie below a height, each over the one before it.
spec fn rises_to(layers: Seq<Layer>, top: int) -> bool {
    &&& forall|i: int| 0 <= i < layers.len() ==> height(#[trigger] layers[i]) < top
    &&& forall|i: int, j: int|
        0 <= i < j < layers.len() ==> height(#[trigger] layers[i]) < height(#[trigger] layers[j])
}

proof fn lemma_layer(layers: Seq<Layer>, shown: bool, layer: Layer)
    requires
        rises_to(layers, height(layer)),
    ensures
        rises_to(layers + layer_if(shown, layer), height(layer) + 1),
        (layers + layer_if(shown, layer)).contains(layer) == shown,
        forall|other: Layer|
            other != layer ==> (#[trigger] (layers + layer_if(shown, layer)).contains(other)
                == layers.contains(other)),
{
    let more = layers + layer_if(shown, layer);
    if shown {
        assert(more[layers.len() as int] == layer);
    } else {
        assert(more =~= layers);
        assert(!more.contains(layer));
    }
    assert forall|other: Layer| other != layer implies (#[trigger] more.contains(other)
        == layers.contains(other)) by {
        if layers.contains(other) {
            let i = choose|i: int| 0 <= i < layers.len() && layers[i] == other;
            assert(more[i] == other);
        }
    }
}

/// Links and diagnostics are always marked; selections and what goes with the caret only where
/// the keys go, and over everything else. Brackets are coloured where the language asks for it,
/// or where it says nothing and the editor is set to. Each layer lies over those before it, in
/// one order for every view.
pub proof fn what_lies_over_what(facts: ViewFacts)
    ensures
        ({
            let layers = layers_of(facts);
            &&& layers.contains(Layer::Syntax)
            &&& layers.contains(Layer::Links)
            &&& layers.contains(Layer::Diagnostics)
            &&& layers.contains(Layer::Selections) == facts.focused
            &&& layers.contains(Layer::Bracket) == facts.focused
            &&& layers.contains(Layer::Tabstops) == facts.focused
            &&& layers.contains(Layer::ServerMarks) == (facts.focused && facts.server_marks)
            &&& layers.contains(Layer::Review) == facts.review
            &&& layers.contains(Layer::Rainbow) == (facts.language_rainbow == Some(true) || (
            facts.language_rainbow is None && facts.rainbow))
            &&& forall|i: int, j: int|
                0 <= i < j < layers.len() ==> height(#[trigger] layers[i]) < height(
                    #[trigger] layers[j],
                )
        }),
{
    let rainbow = match facts.language_rainbow {
        Some(own) => own,
        None => facts.rainbow,
    };
    let none = Seq::<Layer>::empty();
    lemma_layer(none, facts.review, Layer::Review);
    let a = none + layer_if(facts.review, Layer::Review);
    assert(a =~= layer_if(facts.review, Layer::Review));
    lemma_layer(a, true, Layer::Syntax);
    let b = a + layer_if(true, Layer::Syntax);
    lemma_layer(b, rainbow, Layer::Rainbow);
    let c = b + layer_if(rainbow, Layer::Rainbow);
    lemma_layer(c, true, Layer::Links);
    let d = c + layer_if(true, Layer::Links);
    lemma_layer(d, true, Layer::Diagnostics);
    let e = d + layer_if(true, Layer::Diagnostics);
    assert(e =~= c + seq![Layer::Links, Layer::Diagnostics]);
    lemma_layer(e, facts.focused && facts.server_marks, Layer::ServerMarks);
    let f = e + layer_if(facts.focused && facts.server_marks, Layer::ServerMarks);
    lemma_layer(f, facts.focused, Layer::Tabstops);
    let g = f + layer_if(facts.focused, Layer::Tabstops);
    lemma_layer(g, facts.focused, Layer::Selections);
    let h = g + layer_if(facts.focused, Layer::Selections);
    lemma_layer(h, facts.focused, Layer::Bracket);
    let all = h + layer_if(facts.focused, Layer::Bracket);
    assert(all == layers_of(facts));
    assert(b.contains(Layer::Syntax));
}

/// The status line is the last row of a view, from side to side; a border stands at the right
/// of any view but the last. The lines through the caret are drawn only where the keys go, and
/// the box of messages only once the caret rests and they are written nowhere else.
pub proof fn a_view_is_laid_out(facts: ViewFacts)
    requires
        facts.area.fits(),
        facts.area.height > 1,
    ensures
        ({
            let view = view_laid_out(facts);
            &&& view.statusline.x == facts.area.x && view.statusline.width == facts.area.width
            &&& facts.area.y <= view.statusline.y < facts.area.y + facts.area.height
            &&& view.cursorline ==> facts.focused && facts.cursorline
            &&& view.cursorcolumn ==> facts.focused && facts.cursorcolumn
            &&& facts.focused && facts.cursorline ==> view.cursorline
            &&& view.border is Some <==> facts.area.spec_right() != facts.viewport.spec_right()
            &&& view.border matches Some(column) ==> column == facts.area.spec_right()
            &&& view.box_shown <==> facts.settled && !facts.inline_diagnostics
                && !facts.end_of_line_diagnostics
            &&& facts.review ==> !view.gutter
            &&& facts.frame matches Some(line) ==> line >= 1 ==> view.frame_line == Some(
                (line - 1) as usize,
            )
        }),
{
}

/// The signs of the last row stand at its end: the register a macro is recorded to last, the
/// sign of a workspace that is not trusted in front of it, and the pending keys before both,
/// with none of them on another.
pub proof fn signs_stand_at_the_end(area: Rect, message: u16, restricted: bool, recording: bool)
    requires
        area.fits(),
        area.width >= KEY_WIDTH + 2 * SIGN_WIDTH,
    ensures
        signs_at(area, message, restricted, recording) is Some <==> area.width > message
            + KEY_WIDTH,
        signs_at(area, message, restricted, recording) matches Some(signs) ==> {
            let end = area.x + area.width;
            &&& signs.recording is Some <==> recording
            &&& signs.restricted is Some <==> restricted
            &&& signs.recording matches Some(x) ==> x + SIGN_WIDTH == end
            &&& signs.restricted matches Some(x) ==> x + SIGN_WIDTH == (if recording {
                end - SIGN_WIDTH
            } else {
                end
            })
            &&& signs.keys + KEY_WIDTH == end - (if recording {
                SIGN_WIDTH as int
            } else {
                0
            }) - (if restricted {
                SIGN_WIDTH as int
            } else {
                0
            })
        },
{
}

/// A message is always drawn, at the start of the last row and in full; an error is drawn in
/// the colour of errors, and nothing else is.
pub proof fn a_message_is_always_told(
    area: Rect,
    text: Seq<char>,
    severity: Severity,
    keys: Seq<char>,
    restricted: bool,
    recording: Option<char>,
    theme: ThemeStyles,
)
    requires
        area.fits(),
        area.height > 0,
    ensures
        ({
            let texts = last_row_texts(
                area,
                Some((text, severity)),
                keys,
                restricted,
                recording,
                theme,
            );
            &&& texts.len() > 0
            &&& texts[0].text == text
            &&& texts[0].x == area.x
            &&& texts[0].y == area.y + area.height - 1
            &&& severity == Severity::Error ==> texts[0].style == theme.style("error"@)
            &&& severity != Severity::Error ==> texts[0].style == theme.style("ui.text"@)
            &&& area.width > message_columns(text) + KEY_WIDTH ==> texts.len() > 1 && texts[1].text
                == keys
        }),
{
}

/// What is pending is the count and then the keys, in the order they were pressed.
pub proof fn pending_is_in_order(count: u64, keys: Seq<Seq<char>>, key: Seq<char>)
    ensures
        pending(Some(count), Seq::empty()) == decimal(count as nat),
        pending(None, seq![key]) == key,
        pending(Some(count), keys.push(key)) == pending(Some(count), keys) + key,
{
    let more = keys.push(key);
    lemma_keys_same(keys, more, keys.len());
    assert(pending(Some(count), Seq::empty()) =~= decimal(count as nat));
    reveal_with_fuel(crate::editor::layout::key_texts, 2);
    assert(pending(None, seq![key]) =~= key);
    assert(pending(Some(count), more) =~= pending(Some(count), keys) + key);
}

proof fn lemma_keys_same(a: Seq<Seq<char>>, b: Seq<Seq<char>>, n: nat)
    requires
        n <= a.len(),
        n <= b.len(),
        forall|i: int| 0 <= i < n ==> #[trigger] a[i] == b[i],
    ensures
        crate::editor::layout::key_texts(a, n) == crate::editor::layout::key_texts(b, n),
    decreases n,
{
    if n > 0 {
        lemma_keys_same(a, b, (n - 1) as nat);
        assert(a[n - 1] == b[n - 1]);
    }
}

} // verus!
