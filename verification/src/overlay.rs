//! The accent picker: which choices it shows, which one is selected, and what
//! each event asks of its window.
use vstd::prelude::*;
use vstd::string::StringExecFns;
use std::ops::Range;
use iced::window;
use crate::text::{chars_of, push_char, texts};

verus! {

#[verifier::external_type_specification]
#[verifier::external_body]
pub struct ExWindowId(window::Id);

/// iced's derived `Clone` for `window::Id`, a `Copy` type: the clone is the
/// same id.
pub assume_specification[ <iced::window::Id as Clone>::clone ](id: &iced::window::Id) -> (r: iced::window::Id)
    ensures
        r == *id,
;

/// iced's `window::Id` comparison (`==`). The type is a single `u64` with a
/// derived `PartialEq`, so two ids compare equal exactly when they are the
/// same value.
#[verifier::external_body]
fn same_window(a: &window::Id, b: &window::Id) -> (r: bool)
    ensures
        r == (*a == *b),
{
    *a == *b
}

/// First index of the page that holds `selected`: pages hold
/// `items_per_page` choices each, and 0 means one page with everything.
pub open spec fn page_start(selected: int, items_per_page: int) -> int {
    if items_per_page == 0 {
        0
    } else {
        selected / items_per_page * items_per_page
    }
}

/// One past the last index of the page that holds `selected`.
pub open spec fn page_end(count: int, selected: int, items_per_page: int) -> int {
    if items_per_page == 0 {
        count
    } else {
        let start = page_start(selected, items_per_page);
        start + if count - start < items_per_page {
            count - start
        } else {
            items_per_page
        }
    }
}

/// The inputs on which the page of `selected` starts within the list.
pub open spec fn page_in_list(count: int, selected: int, items_per_page: int) -> bool {
    items_per_page == 0 || page_start(selected, items_per_page) <= count
}

proof fn lemma_page_start_bounds(selected: int, items_per_page: int)
    requires
        0 <= selected,
        0 < items_per_page,
    ensures
        0 <= page_start(selected, items_per_page) <= selected,
        selected < page_start(selected, items_per_page) + items_per_page,
        page_start(selected, items_per_page) == (selected / items_per_page) * items_per_page,
{
    vstd::arithmetic::div_mod::lemma_fundamental_div_mod(selected, items_per_page);
    vstd::arithmetic::div_mod::lemma_mod_pos_bound(selected, items_per_page);
    vstd::arithmetic::mul::lemma_mul_is_commutative(items_per_page, selected / items_per_page);
    assert(selected / items_per_page >= 0) by (nonlinear_arith)
        requires
            0 <= selected,
            0 < items_per_page,
    ;
    assert((selected / items_per_page) * items_per_page >= 0) by (nonlinear_arith)
        requires
            selected / items_per_page >= 0,
            0 < items_per_page,
    ;
}

/// The indices shown on the page that holds `selected_index`: pages of
/// `items_per_page` choices (0 shows the whole list on one page). Every
/// selection is on its page, and no page is longer than `items_per_page`.
pub fn page_range(count: usize, selected_index: usize, items_per_page: usize) -> (r: Range<usize>)
    requires
        page_in_list(count as int, selected_index as int, items_per_page as int),
    ensures
        r.start == page_start(selected_index as int, items_per_page as int),
        r.end == page_end(count as int, selected_index as int, items_per_page as int),
        r.start <= r.end <= count,
        items_per_page > 0 ==> r.end - r.start <= items_per_page,
        selected_index < count ==> r.start <= selected_index < r.end,
{
    if items_per_page == 0 {
        return 0..count;
    }
    proof {
        lemma_page_start_bounds(selected_index as int, items_per_page as int);
    }
    let start = selected_index / items_per_page * items_per_page;
    let rest = count - start;
    let len = if rest < items_per_page {
        rest
    } else {
        items_per_page
    };
    start..start + len
}

/// Whether the picker shows a position counter: the choices span several
/// pages.
pub open spec fn has_counter(count: int, items_per_page: int) -> bool {
    items_per_page > 0 && count > items_per_page
}

/// Whether the picker shows a position counter (see `has_counter`).
pub fn shows_page_counter(count: usize, items_per_page: usize) -> (r: bool)
    ensures
        r == has_counter(count as int, items_per_page as int),
{
    items_per_page > 0 && count > items_per_page
}

/// All pages of `count` choices, in order: pages of `items_per_page` choices
/// that follow one another from 0 to `count`, only the last one shorter;
/// `items_per_page` 0 puts every choice on one page.
pub fn page_ranges(count: usize, items_per_page: usize) -> (pages: Vec<Range<usize>>)
    ensures
        items_per_page == 0 ==> pages@.len() == 1 && pages@[0].start == 0 && pages@[0].end == count,
        items_per_page > 0 ==> {
            &&& pages@.len() == 0 <==> count == 0
            &&& pages@.len() > 0 ==> pages@[0].start == 0 && pages@[pages@.len() - 1].end == count
            &&& forall|k: int| 0 < k < pages@.len() ==> #[trigger] pages@[k].start == pages@[k - 1].end
            &&& forall|k: int|
                0 <= k < pages@.len() ==> 0 < #[trigger] pages@[k].end - pages@[k].start
                    <= items_per_page
            &&& forall|k: int|
                0 <= k < pages@.len() - 1 ==> #[trigger] pages@[k].end - pages@[k].start
                    == items_per_page
        },
{
    let mut pages: Vec<Range<usize>> = Vec::new();
    if items_per_page == 0 {
        pages.push(0..count);
        return pages;
    }
    let mut start: usize = 0;
    while start < count
        invariant
            items_per_page > 0,
            start <= count,
            pages@.len() == 0 <==> start == 0,
            pages@.len() > 0 ==> pages@[0].start == 0 && pages@[pages@.len() - 1].end == start,
            pages@.len() > 0 && pages@[pages@.len() - 1].end - pages@[pages@.len() - 1].start
                < items_per_page ==> start == count,
            forall|k: int| 0 < k < pages@.len() ==> #[trigger] pages@[k].start == pages@[k - 1].end,
            forall|k: int|
                0 <= k < pages@.len() ==> 0 < #[trigger] pages@[k].end - pages@[k].start
                    <= items_per_page,
            forall|k: int|
                0 <= k < pages@.len() - 1 ==> #[trigger] pages@[k].end - pages@[k].start
                    == items_per_page,
        decreases count - start,
    {
        let rest = count - start;
        let len = if rest < items_per_page {
            rest
        } else {
            items_per_page
        };
        let end = start + len;
        let ghost before = pages@;
        pages.push(start..end);
        assert(pages@[before.len() as int].start == start && pages@[before.len() as int].end == end);
        assert forall|k: int| 0 <= k < before.len() implies pages@[k] == before[k] by {}
        start = end;
    }
    pages
}

/// Every index on a page has that same page: moving the selection within the
/// page shows the same choices, so the picker does not move.
pub proof fn lemma_page_is_shared(count: int, selected: int, other: int, items_per_page: int)
    requires
        0 <= selected,
        page_start(selected, items_per_page) <= other < page_end(count, selected, items_per_page),
        0 < items_per_page,
    ensures
        page_start(other, items_per_page) == page_start(selected, items_per_page),
        page_end(count, other, items_per_page) == page_end(count, selected, items_per_page),
{
    lemma_page_start_bounds(selected, items_per_page);
    let q = selected / items_per_page;
    let r = other - q * items_per_page;
    assert(other == q * items_per_page + r);
    vstd::arithmetic::div_mod::lemma_fundamental_div_mod_converse(other, items_per_page, q, r);
}

/// Combining marks that the picker shows on a dotted circle.
pub open spec fn is_shown_on_circle(c: char) -> bool {
    let n = c as u32;
    ||| 0x300 <= n <= 0x36f
    ||| 0x5b0 <= n <= 0x5bd
    ||| n == 0x5bf
    ||| n == 0x5c1
    ||| n == 0x5c2
    ||| n == 0x5c7
}

/// The text shown for a choice: a left-to-right mark, then a dotted circle
/// when the choice starts with a combining mark, then the choice itself.
pub open spec fn label_text(choice: Seq<char>) -> Seq<char> {
    seq!['\u{200e}'] + (if choice.len() > 0 && is_shown_on_circle(choice[0]) {
        seq!['\u{25cc}']
    } else {
        seq![]
    }) + choice
}

/// A character of the Unicode block Combining Diacritical Marks.
pub open spec fn is_combining_diacritic(c: char) -> bool {
    (c as u32) >= 0x0300 && (c as u32) < 0x0370
}

/// The Hebrew points and marks that are written over or under a letter:
/// shown alone, they need a base.
pub open spec fn is_hebrew_point_shown_alone(c: char) -> bool {
    let code = c as u32;
    (code >= 0x05b0 && code < 0x05be) || code == 0x05bf || code == 0x05c1 || code == 0x05c2
        || code == 0x05c7
}

/// Every choice that starts with a combining diacritical mark (U+0300 to
/// U+036F) or a Hebrew point shown on its own (U+05B0 to U+05BD, U+05BF,
/// U+05C1, U+05C2, U+05C7) is labelled with a left-to-right mark, a dotted
/// circle and the choice; every other choice with the left-to-right mark and
/// the choice alone.
pub proof fn lemma_label_puts_marks_on_a_circle(c: char, rest: Seq<char>)
    ensures
        (is_combining_diacritic(c) || is_hebrew_point_shown_alone(c)) ==> label_text(seq![c] + rest) == seq!['\u{200e}', '\u{25cc}', c] + rest,
        !(is_combining_diacritic(c) || is_hebrew_point_shown_alone(c)) ==> label_text(seq![c] + rest) == seq!['\u{200e}', c] + rest,
        label_text(Seq::<char>::empty()) == seq!['\u{200e}'],
{
    let choice = seq![c] + rest;
    assert(choice[0] == c);
    assert(label_text(Seq::<char>::empty()) =~= seq!['\u{200e}']);
    if is_shown_on_circle(c) {
        assert(label_text(choice) =~= seq!['\u{200e}', '\u{25cc}', c] + rest);
    } else {
        assert(label_text(choice) =~= seq!['\u{200e}', c] + rest);
    }
}

/// The label shown for a choice. Display-only bases make combining marks
/// visible; the left-to-right mark keeps right-to-left glyphs from being
/// clipped at the edge of their cell.
pub fn variant_label(ch: &str) -> (r: String)
    ensures
        r@ == label_text(ch@),
{
    let chars = chars_of(ch);
    let mut r = String::new();
    push_char(&mut r, '\u{200e}');
    if chars.len() > 0 {
        let n = chars[0] as u32;
        if (0x300 <= n && n <= 0x36f) || (0x5b0 <= n && n <= 0x5bd) || n == 0x5bf || n == 0x5c1
            || n == 0x5c2 || n == 0x5c7 {
            push_char(&mut r, '\u{25cc}');
        }
    }
    r.append(ch);
    r
}

/// What the picker is asked to do.
#[derive(Debug, Clone)]
pub enum Message {
    /// Show these choices, with this one selected.
    ShowOverlay(Vec<String>, usize),
    /// Select another choice.
    UpdateSelection(usize),
    /// Close the picker without a choice.
    HideOverlay,
    /// A choice was typed; close the picker.
    InjectChar,
    /// The picker's window has opened.
    WindowOpened(window::Id),
}

/// What the keyboard side reports while a letter is held.
#[derive(Debug, Clone)]
pub enum GrabEvent {
    ShowOverlay { variants: Vec<String>, index: usize },
    UpdateSelection(usize),
    HideOverlay,
    InjectChar(String),
    FalseStart,
}

/// The picker message for a keyboard event: a typed choice closes the
/// picker, and so does a false start.
pub fn message_for(event: GrabEvent) -> (m: Message)
    ensures
        m == (match event {
            GrabEvent::ShowOverlay { variants, index } => Message::ShowOverlay(variants, index),
            GrabEvent::UpdateSelection(index) => Message::UpdateSelection(index),
            GrabEvent::HideOverlay => Message::HideOverlay,
            GrabEvent::InjectChar(_) => Message::InjectChar,
            GrabEvent::FalseStart => Message::HideOverlay,
        }),
{
    match event {
        GrabEvent::ShowOverlay { variants, index } => Message::ShowOverlay(variants, index),
        GrabEvent::UpdateSelection(index) => Message::UpdateSelection(index),
        GrabEvent::HideOverlay => Message::HideOverlay,
        GrabEvent::InjectChar(_) => Message::InjectChar,
        GrabEvent::FalseStart => Message::HideOverlay,
    }
}

/// What the picker's window has to do after a message.
#[derive(Debug, Clone, Copy)]
pub enum WindowCommand {
    Nothing,
    /// Open a window sized for the current choices, then `attach_window` it.
    Open,
    /// Resize this window for the current choices.
    Resize(window::Id),
    /// Close this window.
    Close(window::Id),
}

/// The picker's recorded window after a message: hiding or typing a choice
/// forgets it; nothing else changes it (a window asked for with `Open` is
/// recorded afterwards by `attach_window`).
pub open spec fn window_after(w: Option<window::Id>, m: Message) -> Option<window::Id> {
    match m {
        Message::HideOverlay | Message::InjectChar => None,
        _ => w,
    }
}

/// What a message asks of the picker's window, given the recorded one:
/// showing choices resizes the open window or asks for one; hiding or typing
/// a choice closes the open window.
pub open spec fn command_for(w: Option<window::Id>, m: Message) -> WindowCommand {
    match m {
        Message::ShowOverlay(_, _) => match w {
            Some(id) => WindowCommand::Resize(id),
            None => WindowCommand::Open,
        },
        Message::HideOverlay | Message::InjectChar => match w {
            Some(id) => WindowCommand::Close(id),
            None => WindowCommand::Nothing,
        },
        _ => WindowCommand::Nothing,
    }
}

/// Whether some message showed choices after the last one that hid them or
/// typed a choice.
pub open spec fn shown_last(msgs: Seq<Message>) -> bool
    decreases msgs.len(),
{
    if msgs.len() == 0 {
        false
    } else {
        match msgs.last() {
            Message::ShowOverlay(_, _) => true,
            Message::HideOverlay | Message::InjectChar => false,
            _ => shown_last(msgs.drop_last()),
        }
    }
}

/// One choice on the picker's page.
#[derive(Debug, Clone)]
pub struct PickerCell {
    pub label: String,
    pub selected: bool,
}

/// What the picker's window shows: the choices of the selected page and,
/// when there are several pages, the position of the selection as
/// (1-based position, number of choices).
#[derive(Debug, Clone)]
pub struct Picker {
    pub cells: Vec<PickerCell>,
    pub counter: Option<(usize, usize)>,
}

/// The state of the accent picker.
pub struct App {
    items_per_page: usize,
    variants: Vec<String>,
    selected_index: usize,
    overlay_window: Option<window::Id>,
    /// Whether choices were shown after the last hide or typed choice.
    showing: bool,
    /// The messages applied so far.
    history: Ghost<Seq<Message>>,
}

impl App {
    /// A window is recorded only while choices are shown.
    #[verifier::type_invariant]
    spec fn window_only_while_showing(self) -> bool {
        &&& self.showing == shown_last(self.history@)
        &&& self.overlay_window is Some ==> self.showing
    }

    /// The messages applied since the picker was made.
    pub closed spec fn messages(&self) -> Seq<Message> {
        self.history@
    }

    /// Choices per page (0: all on one page).
    pub closed spec fn page_size(&self) -> usize {
        self.items_per_page
    }

    /// The choices on offer.
    pub closed spec fn choices(&self) -> Seq<Seq<char>> {
        texts(self.variants@)
    }

    /// The selected choice.
    pub closed spec fn selection(&self) -> usize {
        self.selected_index
    }

    /// The picker's window, while one is open.
    pub closed spec fn picker_window(&self) -> Option<window::Id> {
        self.overlay_window
    }

    /// Whether the picker can be drawn for `window_id`: the page of the
    /// selection starts within the list, and its 1-based position fits.
    pub open spec fn can_draw(&self, window_id: window::Id) -> bool {
        (self.picker_window() == Some(window_id) && self.choices().len() > 0) ==> {
            &&& page_in_list(
                self.choices().len() as int,
                self.selection() as int,
                self.page_size() as int,
            )
            &&& (self.page_size() > 0 && self.choices().len() > self.page_size())
                ==> self.selection() < usize::MAX
        }
    }

    /// A closed picker with no choices.
    pub fn new(items_per_page: usize) -> (app: App)
        ensures
            app.page_size() == items_per_page,
            app.choices() == Seq::<Seq<char>>::empty(),
            app.selection() == 0,
            app.picker_window() == None::<window::Id>,
            app.messages() == Seq::<Message>::empty(),
    {
        let app = App {
            items_per_page,
            variants: Vec::new(),
            selected_index: 0,
            overlay_window: None,
            showing: false,
            history: Ghost(Seq::empty()),
        };
        assert(app.choices() =~= Seq::<Seq<char>>::empty());
        app
    }

    /// Applies a message. Showing choices keeps the window that is open
    /// (resizing it) or asks for one; hiding or typing a choice drops the
    /// choices and closes the window.
    ///
    /// Over any run of messages a window is recorded only while choices are
    /// shown (after the last hide or typed choice), a window is asked for
    /// only while none is recorded, and only the recorded window is resized
    /// or closed: there is never more than one picker window.
    pub fn update(&mut self, message: Message) -> (c: WindowCommand)
        ensures
            final(self).messages() == old(self).messages().push(message),
            final(self).picker_window() is Some ==> shown_last(final(self).messages()),
            match c {
                WindowCommand::Open => old(self).picker_window() is None,
                WindowCommand::Resize(id) => old(self).picker_window() == Some(id),
                WindowCommand::Close(id) => old(self).picker_window() == Some(id),
                WindowCommand::Nothing => true,
            },
            final(self).page_size() == old(self).page_size(),
            final(self).picker_window() == window_after(old(self).picker_window(), message),
            c == command_for(old(self).picker_window(), message),
            match message {
                Message::ShowOverlay(variants, index) => {
                    &&& final(self).choices() == texts(variants@)
                    &&& final(self).selection() == index
                },
                Message::UpdateSelection(index) => {
                    &&& final(self).choices() == old(self).choices()
                    &&& final(self).selection() == index
                },
                Message::HideOverlay | Message::InjectChar => {
                    &&& final(self).choices() == Seq::<Seq<char>>::empty()
                    &&& final(self).selection() == old(self).selection()
                },
                Message::WindowOpened(_) => {
                    &&& final(self).choices() == old(self).choices()
                    &&& final(self).selection() == old(self).selection()
                },
            },
    {
        proof {
            use_type_invariant(&*self);
        }
        let ghost m = message;
        let ghost h = self.history@.push(m);
        assert(h.drop_last() =~= self.history@);
        assert(h.last() == m);
        let items = self.items_per_page;
        let window = self.overlay_window;
        match message {
            Message::ShowOverlay(variants, index) => {
                *self = App {
                    items_per_page: items,
                    variants,
                    selected_index: index,
                    overlay_window: window,
                    showing: true,
                    history: Ghost(h),
                };
                match window {
                    Some(id) => WindowCommand::Resize(id),
                    None => WindowCommand::Open,
                }
            },
            Message::UpdateSelection(index) => {
                self.selected_index = index;
                self.history = Ghost(h);
                WindowCommand::Nothing
            },
            Message::HideOverlay | Message::InjectChar => {
                let selected = self.selected_index;
                *self = App {
                    items_per_page: items,
                    variants: Vec::new(),
                    selected_index: selected,
                    overlay_window: None,
                    showing: false,
                    history: Ghost(h),
                };
                assert(self.choices() =~= Seq::<Seq<char>>::empty());
                match window {
                    Some(id) => WindowCommand::Close(id),
                    None => WindowCommand::Nothing,
                }
            },
            Message::WindowOpened(_id) => {
                self.history = Ghost(h);
                WindowCommand::Nothing
            },
        }
    }

    /// Records the window that was opened (after `WindowCommand::Open`) for
    /// the choices shown; while none are shown there is nothing to record.
    pub fn attach_window(&mut self, id: window::Id)
        ensures
            final(self).picker_window() == if shown_last(old(self).messages()) {
                Some(id)
            } else {
                old(self).picker_window()
            },
            final(self).messages() == old(self).messages(),
            final(self).page_size() == old(self).page_size(),
            final(self).choices() == old(self).choices(),
            final(self).selection() == old(self).selection(),
    {
        proof {
            use_type_invariant(&*self);
        }
        if self.showing {
            self.overlay_window = Some(id);
        }
    }

    /// The choices on offer.
    pub fn variants(&self) -> (r: &Vec<String>)
        ensures
            texts(r@) == self.choices(),
    {
        &self.variants
    }

    /// Choices per page (0: all on one page).
    pub fn items_per_page(&self) -> (r: usize)
        ensures
            r == self.page_size(),
    {
        self.items_per_page
    }

    /// The selected choice.
    pub fn selected_index(&self) -> (r: usize)
        ensures
            r == self.selection(),
    {
        self.selected_index
    }

    /// Whether `view` can draw the window `window_id` (see `can_draw`).
    pub fn is_drawable(&self, window_id: window::Id) -> (r: bool)
        ensures
            r == self.can_draw(window_id),
    {
        let shown = match &self.overlay_window {
            Some(id) => same_window(id, &window_id),
            None => false,
        };
        if !shown || self.variants.len() == 0 {
            return true;
        }
        let n = self.variants.len();
        let size = self.items_per_page;
        if size == 0 {
            return true;
        }
        proof {
            lemma_page_start_bounds(self.selected_index as int, size as int);
        }
        let start = self.selected_index / size * size;
        start <= n && (!(n > size) || self.selected_index < usize::MAX)
    }

    /// What the window `window_id` shows: nothing unless it is the picker's
    /// window and there are choices; otherwise the page of the selection,
    /// with the selected choice marked, and a position counter when the
    /// choices span several pages.
    pub fn view(&self, window_id: window::Id) -> (r: Option<Picker>)
        requires
            self.can_draw(window_id),
        ensures
            r is None <==> (self.picker_window() != Some(window_id) || self.choices().len() == 0),
            r matches Some(p) ==> {
                let n = self.choices().len() as int;
                let sel = self.selection() as int;
                let size = self.page_size() as int;
                let start = page_start(sel, size);
                &&& p.cells.len() == page_end(n, sel, size) - start
                &&& forall|i: int|
                    0 <= i < p.cells.len() ==> {
                        &&& (#[trigger] p.cells[i]).label@ == label_text(self.choices()[start + i])
                        &&& p.cells[i].selected == (start + i == sel)
                    }
                &&& p.counter == if has_counter(n, size) {
                    Some(((sel + 1) as usize, n as usize))
                } else {
                    None
                }
            },
    {
        let shown = match &self.overlay_window {
            Some(id) => same_window(id, &window_id),
            None => false,
        };
        if !shown || self.variants.len() == 0 {
            return None;
        }
        let n = self.variants.len();
        let page = page_range(n, self.selected_index, self.items_per_page);
        let mut cells: Vec<PickerCell> = Vec::new();
        let mut i = page.start;
        while i < page.end
            invariant
                page.start <= i <= page.end <= n,
                n == self.variants.len(),
                cells.len() == i - page.start,
                forall|k: int|
                    0 <= k < cells.len() ==> {
                        &&& (#[trigger] cells@[k]).label@ == label_text(
                            self.choices()[page.start + k],
                        )
                        &&& cells@[k].selected == (page.start + k == self.selected_index)
                    },
            decreases page.end - i,
        {
            let label = variant_label(self.variants[i].as_str());
            assert(self.choices()[i as int] == self.variants@[i as int]@);
            cells.push(PickerCell { label, selected: i == self.selected_index });
            i += 1;
        }
        let counter = if shows_page_counter(n, self.items_per_page) {
            Some((self.selected_index + 1, n))
        } else {
            None
        };
        Some(Picker { cells, counter })
    }
}

} // verus!
