//! Rich text components: text, translations, scores and key binds, with styles, fonts and
//! click and hover events, built up value by value.
use vstd::prelude::*;
use crate::text::TextColor;
use crate::types::Identifier;

verus! {

/// What a component shows.
#[derive(Debug)]
pub enum TextComponentType {
    Text { text: String },
    Translatable { translate: String, fallback: Option<String>, with: Option<Vec<TextComponent>> },
    ScoreboardValue { score_holder: String, objective: String },
    EntityNames { selector: String, separator: Option<Box<TextComponent>> },
    Keybind { keybind: String },
}

/// What hovering over a component shows. An entity's UUID is kept as its 128-bit number.
#[derive(Debug)]
pub enum HoverEvent {
    ShowText { text: Box<TextComponent> },
    ShowItem { id: Identifier, count: u8 },
    ShowEntity { name: Option<Box<TextComponent>>, ty: Identifier, id: u128 },
}

/// What clicking a component does.
#[derive(Debug, Clone, PartialEq, Eq)]
pub enum ClickEvent {
    OpenURL(String),
    OpenFile(String),
    RunCommand(String),
    SuggestCommand(String),
    ChangePage(String),
    CopyToClipboard(String),
}

/// A component: its content, children, colour, font, style flags (`explicit_flags` marks which of
/// bold 0x1, italic 0x2, underlined 0x4, strikethrough 0x8, obfuscated 0x10 were set
/// explicitly), shift-click insertion, and events.
#[derive(Debug)]
pub struct TextComponent {
    pub content: TextComponentType,
    pub extra: Option<Vec<TextComponent>>,
    pub color: Option<TextColor>,
    pub font: Option<Identifier>,
    pub bold: bool,
    pub italic: bool,
    pub underlined: bool,
    pub strikethrough: bool,
    pub obfuscated: bool,
    pub explicit_flags: u8,
    pub insertion: Option<String>,
    pub click_event: Option<ClickEvent>,
    pub hover_event: Option<HoverEvent>,
}

/// A component with only its content set: no children, colour, font, flags or events.
pub open spec fn plain(c: TextComponent) -> bool {
    c.extra is None && c.color is None && c.font is None && !c.bold && !c.italic && !c.underlined
        && !c.strikethrough && !c.obfuscated && c.explicit_flags == 0 && c.insertion is None && c.click_event is None
        && c.hover_event is None
}

/// `a` and `b` agree on everything but the style flags and `explicit_flags`.
pub open spec fn same_but_flags(a: TextComponent, b: TextComponent) -> bool {
    a.content == b.content && a.extra == b.extra && a.color == b.color && a.font == b.font && a.insertion
        == b.insertion && a.click_event == b.click_event && a.hover_event == b.hover_event
}

/// `a` and `b` agree on the style flags and `explicit_flags`.
pub open spec fn same_flags(a: TextComponent, b: TextComponent) -> bool {
    a.bold == b.bold && a.italic == b.italic && a.underlined == b.underlined && a.strikethrough
        == b.strikethrough && a.obfuscated == b.obfuscated && a.explicit_flags == b.explicit_flags
}

fn with_content(content: TextComponentType) -> (r: TextComponent)
    ensures
        plain(r),
        r.content == content,
{
    TextComponent {
        content,
        extra: None,
        color: None,
        font: None,
        bold: false,
        italic: false,
        underlined: false,
        strikethrough: false,
        obfuscated: false,
        explicit_flags: 0,
        insertion: None,
        click_event: None,
        hover_event: None,
    }
}

impl TextComponent {
    pub fn text(text: String) -> (r: TextComponent)
        ensures
            plain(r),
            r.content == (TextComponentType::Text { text }),
    {
        with_content(TextComponentType::Text { text })
    }

    pub fn text_color(text: String, color: TextColor) -> (r: TextComponent)
        ensures
            r.content == (TextComponentType::Text { text }),
            r.color == Some(color),
            r.extra is None && r.font is None && r.explicit_flags == 0 && r.insertion is None,
            r.click_event is None && r.hover_event is None,
    {
        let mut c = with_content(TextComponentType::Text { text });
        c.color = Some(color);
        c
    }

    pub fn translatable(translate: String, fallback: Option<String>, with: Option<Vec<TextComponent>>) -> (r: TextComponent)
        ensures
            plain(r),
            r.content == (TextComponentType::Translatable { translate, fallback, with }),
    {
        with_content(TextComponentType::Translatable { translate, fallback, with })
    }

    pub fn scoreboard(score_holder: String, objective: String) -> (r: TextComponent)
        ensures
            plain(r),
            r.content == (TextComponentType::ScoreboardValue { score_holder, objective }),
    {
        with_content(TextComponentType::ScoreboardValue { score_holder, objective })
    }

    pub fn keybind(keybind: String) -> (r: TextComponent)
        ensures
            plain(r),
            r.content == (TextComponentType::Keybind { keybind }),
    {
        with_content(TextComponentType::Keybind { keybind })
    }

    /// Adds a child after the existing ones.
    pub fn append(self, other: TextComponent) -> (r: TextComponent)
        ensures
            r.extra matches Some(v) && v@ == match self.extra {
                Some(w) => w@,
                None => Seq::empty(),
            }.push(other),
            r.content == self.content && r.color == self.color && r.font == self.font,
            r.insertion == self.insertion && r.click_event == self.click_event && r.hover_event == self.hover_event,
            same_flags(r, self),
    {
        let mut s = self;
        match s.extra {
            Some(mut v) => {
                v.push(other);
                s.extra = Some(v);
            },
            None => {
                let mut v: Vec<TextComponent> = Vec::new();
                v.push(other);
                s.extra = Some(v);
            },
        }
        s
    }

    pub fn with_color(self, color: TextColor) -> (r: TextComponent)
        ensures
            r.color == Some(color),
            r.content == self.content && r.extra == self.extra && r.font == self.font,
            r.insertion == self.insertion && r.click_event == self.click_event && r.hover_event == self.hover_event,
            same_flags(r, self),
    {
        let mut s = self;
        s.color = Some(color);
        s
    }

    pub fn with_font(self, font: Identifier) -> (r: TextComponent)
        ensures
            r.font == Some(font),
            r.content == self.content && r.extra == self.extra && r.color == self.color,
            r.insertion == self.insertion && r.click_event == self.click_event && r.hover_event == self.hover_event,
            same_flags(r, self),
    {
        let mut s = self;
        s.font = Some(font);
        s
    }

    pub fn bold(self) -> (r: TextComponent)
        ensures
            r.bold && r.explicit_flags == self.explicit_flags | 0x1,
            same_but_flags(r, self),
            r.italic == self.italic && r.underlined == self.underlined && r.strikethrough == self.strikethrough
                && r.obfuscated == self.obfuscated,
    {
        let mut s = self;
        s.bold = true;
        s.explicit_flags = s.explicit_flags | 0x1;
        s
    }

    pub fn not_bold(self) -> (r: TextComponent)
        ensures
            !r.bold && r.explicit_flags == self.explicit_flags | 0x1,
            same_but_flags(r, self),
            r.italic == self.italic && r.underlined == self.underlined && r.strikethrough == self.strikethrough
                && r.obfuscated == self.obfuscated,
    {
        let mut s = self;
        s.bold = false;
        s.explicit_flags = s.explicit_flags | 0x1;
        s
    }

    pub fn italic(self) -> (r: TextComponent)
        ensures
            r.italic && r.explicit_flags == self.explicit_flags | 0x2,
            same_but_flags(r, self),
            r.bold == self.bold && r.underlined == self.underlined && r.strikethrough == self.strikethrough
                && r.obfuscated == self.obfuscated,
    {
        let mut s = self;
        s.italic = true;
        s.explicit_flags = s.explicit_flags | 0x2;
        s
    }

    pub fn not_italic(self) -> (r: TextComponent)
        ensures
            !r.italic && r.explicit_flags == self.explicit_flags | 0x2,
            same_but_flags(r, self),
            r.bold == self.bold && r.underlined == self.underlined && r.strikethrough == self.strikethrough
                && r.obfuscated == self.obfuscated,
    {
        let mut s = self;
        s.italic = false;
        s.explicit_flags = s.explicit_flags | 0x2;
        s
    }

    pub fn underlined(self) -> (r: TextComponent)
        ensures
            r.underlined && r.explicit_flags == self.explicit_flags | 0x4,
            same_but_flags(r, self),
            r.bold == self.bold && r.italic == self.italic && r.strikethrough == self.strikethrough
                && r.obfuscated == self.obfuscated,
    {
        let mut s = self;
        s.underlined = true;
        s.explicit_flags = s.explicit_flags | 0x4;
        s
    }

    pub fn not_underlined(self) -> (r: TextComponent)
        ensures
            !r.underlined && r.explicit_flags == self.explicit_flags | 0x4,
            same_but_flags(r, self),
            r.bold == self.bold && r.italic == self.italic && r.strikethrough == self.strikethrough
                && r.obfuscated == self.obfuscated,
    {
        let mut s = self;
        s.underlined = false;
        s.explicit_flags = s.explicit_flags | 0x4;
        s
    }

    pub fn strikethrough(self) -> (r: TextComponent)
        ensures
            r.strikethrough && r.explicit_flags == self.explicit_flags | 0x8,
            same_but_flags(r, self),
            r.bold == self.bold && r.italic == self.italic && r.underlined == self.underlined
                && r.obfuscated == self.obfuscated,
    {
        let mut s = self;
        s.strikethrough = true;
        s.explicit_flags = s.explicit_flags | 0x8;
        s
    }

    pub fn not_strikethrough(self) -> (r: TextComponent)
        ensures
            !r.strikethrough && r.explicit_flags == self.explicit_flags | 0x8,
            same_but_flags(r, self),
            r.bold == self.bold && r.italic == self.italic && r.underlined == self.underlined
                && r.obfuscated == self.obfuscated,
    {
        let mut s = self;
        s.strikethrough = false;
        s.explicit_flags = s.explicit_flags | 0x8;
        s
    }

    pub fn obfuscated(self) -> (r: TextComponent)
        ensures
            r.obfuscated && r.explicit_flags == self.explicit_flags | 0x10,
            same_but_flags(r, self),
            r.bold == self.bold && r.italic == self.italic && r.underlined == self.underlined
                && r.strikethrough == self.strikethrough,
    {
        let mut s = self;
        s.obfuscated = true;
        s.explicit_flags = s.explicit_flags | 0x10;
        s
    }

    pub fn not_obfuscated(self) -> (r: TextComponent)
        ensures
            !r.obfuscated && r.explicit_flags == self.explicit_flags | 0x10,
            same_but_flags(r, self),
            r.bold == self.bold && r.italic == self.italic && r.underlined == self.underlined
                && r.strikethrough == self.strikethrough,
    {
        let mut s = self;
        s.obfuscated = false;
        s.explicit_flags = s.explicit_flags | 0x10;
        s
    }

    pub fn on_hover(self, event: HoverEvent) -> (r: TextComponent)
        ensures
            r.hover_event == Some(event),
            r.content == self.content && r.extra == self.extra && r.color == self.color && r.font == self.font,
            r.insertion == self.insertion && r.click_event == self.click_event,
            same_flags(r, self),
    {
        let mut s = self;
        s.hover_event = Some(event);
        s
    }

    pub fn on_click(self, event: ClickEvent) -> (r: TextComponent)
        ensures
            r.click_event == Some(event),
            r.content == self.content && r.extra == self.extra && r.color == self.color && r.font == self.font,
            r.insertion == self.insertion && r.hover_event == self.hover_event,
            same_flags(r, self),
    {
        let mut s = self;
        s.click_event = Some(event);
        s
    }

    /// Text inserted into the chat box when the component is shift-clicked.
    pub fn shift_click(self, insertion: String) -> (r: TextComponent)
        ensures
            r.insertion == Some(insertion),
            r.content == self.content && r.extra == self.extra && r.color == self.color && r.font == self.font,
            r.click_event == self.click_event && r.hover_event == self.hover_event,
            same_flags(r, self),
    {
        let mut s = self;
        s.insertion = Some(insertion);
        s
    }
}

} // verus!
