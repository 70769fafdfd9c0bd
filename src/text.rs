//! Text components: styled text with nested children, rendered as JSON text or as an NBT
//! compound.
use vstd::prelude::*;
use crate::nbt::{NBTTag, NbtValue};

verus! {

broadcast use vstd::std_specs::vec::axiom_vec_index_decreases;

/// A text colour: one of the sixteen named ones, or any RGB value.
#[derive(Debug, Clone, Copy, PartialEq, Eq, Structural)]
pub enum TextColor {
    Black,
    DarkBlue,
    DarkGreen,
    DarkCyan,
    DarkRed,
    Purple,
    Gold,
    Gray,
    DarkGray,
    Blue,
    BrightGreen,
    Cyan,
    Red,
    Pink,
    Yellow,
    White,
    Other(u32),
}

/// A text decoration.
#[derive(Debug, Clone, Copy, PartialEq, Eq, Structural)]
pub enum TextStyle {
    Obfuscated,
    Bold,
    Strikethrough,
    Underline,
    Italic,
}

pub open spec fn hex_digit(d: nat) -> char {
    if d < 10 {
        ((d + 48) as u8) as char
    } else {
        ((d + 87) as u8) as char
    }
}

/// `n` in lower-case hexadecimal, without leading zeros.
pub open spec fn hex_chars(n: nat) -> Seq<char>
    decreases n,
{
    if n < 16 {
        seq![hex_digit(n)]
    } else {
        hex_chars(n / 16).push(hex_digit(n % 16))
    }
}

pub open spec fn color_name(c: TextColor) -> Seq<char> {
    match c {
        TextColor::Black => "black"@,
        TextColor::DarkBlue => "dark_blue"@,
        TextColor::DarkGreen => "dark_green"@,
        TextColor::DarkCyan => "dark_cyan"@,
        TextColor::DarkRed => "dark_red"@,
        TextColor::Purple => "purple"@,
        TextColor::Gold => "gold"@,
        TextColor::Gray => "gray"@,
        TextColor::DarkGray => "dark_gray"@,
        TextColor::Blue => "blue"@,
        TextColor::BrightGreen => "bright_green"@,
        TextColor::Cyan => "cyan"@,
        TextColor::Red => "red"@,
        TextColor::Pink => "pink"@,
        TextColor::Yellow => "yellow"@,
        TextColor::White => "white"@,
        TextColor::Other(hex) => "#"@ + hex_chars(hex as nat),
    }
}

pub open spec fn style_name(s: TextStyle) -> Seq<char> {
    match s {
        TextStyle::Obfuscated => "obfuscated"@,
        TextStyle::Bold => "bold"@,
        TextStyle::Strikethrough => "strikethrough"@,
        TextStyle::Underline => "underline"@,
        TextStyle::Italic => "italic"@,
    }
}

/// Appends `n` in lower-case hexadecimal.
fn push_hex(s: String, n: u32) -> (r: String)
    ensures
        r@ == s@ + hex_chars(n as nat),
    decreases n,
{
    let d = n % 16;
    let head = if n >= 16 {
        push_hex(s, n / 16)
    } else {
        s
    };
    let digit: &str = if d == 0 {
        "0"
    } else if d == 1 {
        "1"
    } else if d == 2 {
        "2"
    } else if d == 3 {
        "3"
    } else if d == 4 {
        "4"
    } else if d == 5 {
        "5"
    } else if d == 6 {
        "6"
    } else if d == 7 {
        "7"
    } else if d == 8 {
        "8"
    } else if d == 9 {
        "9"
    } else if d == 10 {
        "a"
    } else if d == 11 {
        "b"
    } else if d == 12 {
        "c"
    } else if d == 13 {
        "d"
    } else if d == 14 {
        "e"
    } else {
        "f"
    };
    proof {
        reveal_strlit("0");
        reveal_strlit("1");
        reveal_strlit("2");
        reveal_strlit("3");
        reveal_strlit("4");
        reveal_strlit("5");
        reveal_strlit("6");
        reveal_strlit("7");
        reveal_strlit("8");
        reveal_strlit("9");
        reveal_strlit("a");
        reveal_strlit("b");
        reveal_strlit("c");
        reveal_strlit("d");
        reveal_strlit("e");
        reveal_strlit("f");
        assert(digit@ =~= seq![hex_digit(d as nat)]);
    }
    head.concat(digit)
}

impl TextColor {
    /// The colour's name in text components: its lower-case name, or `#` and hex digits.
    pub fn name(&self) -> (r: String)
        ensures
            r@ == color_name(*self),
    {
        match self {
            TextColor::Black => String::from_str("black"),
            TextColor::DarkBlue => String::from_str("dark_blue"),
            TextColor::DarkGreen => String::from_str("dark_green"),
            TextColor::DarkCyan => String::from_str("dark_cyan"),
            TextColor::DarkRed => String::from_str("dark_red"),
            TextColor::Purple => String::from_str("purple"),
            TextColor::Gold => String::from_str("gold"),
            TextColor::Gray => String::from_str("gray"),
            TextColor::DarkGray => String::from_str("dark_gray"),
            TextColor::Blue => String::from_str("blue"),
            TextColor::BrightGreen => String::from_str("bright_green"),
            TextColor::Cyan => String::from_str("cyan"),
            TextColor::Red => String::from_str("red"),
            TextColor::Pink => String::from_str("pink"),
            TextColor::Yellow => String::from_str("yellow"),
            TextColor::White => String::from_str("white"),
            TextColor::Other(hex) => push_hex(String::from_str("#"), *hex),
        }
    }
}

impl TextStyle {
    pub fn name(&self) -> (r: &'static str)
        ensures
            r@ == style_name(*self),
    {
        match self {
            TextStyle::Obfuscated => "obfuscated",
            TextStyle::Bold => "bold",
            TextStyle::Strikethrough => "strikethrough",
            TextStyle::Underline => "underline",
            TextStyle::Italic => "italic",
        }
    }
}

/// Styled text with optional children.
pub struct Component {
    pub text: String,
    pub extra: Option<Vec<Component>>,
    pub style: Option<TextStyle>,
    pub color: Option<TextColor>,
}

/// One character as it stands inside a JSON string: a quote or a backslash behind a
/// backslash, a control character as a backslash, `u00` and two hex digits, anything else
/// as it is.
pub open spec fn json_escape_char(c: char) -> Seq<char> {
    if c == '"' {
        seq!['\\', '"']
    } else if c == '\\' {
        seq!['\\', '\\']
    } else if (c as u32) < 0x20 {
        seq!['\\', 'u', '0', '0', hex_digit((c as u32 / 16) as nat), hex_digit((c as u32 % 16) as nat)]
    } else {
        seq![c]
    }
}

/// Text as it stands inside a JSON string.
pub open spec fn json_escape(s: Seq<char>) -> Seq<char>
    decreases s.len(),
{
    if s.len() == 0 {
        Seq::empty()
    } else {
        json_escape(s.drop_last()) + json_escape_char(s.last())
    }
}

/// Text with no quote, backslash or control character stands in a JSON string as it is.
pub proof fn lemma_escape_plain(s: Seq<char>)
    requires
        forall|i: int| 0 <= i < s.len() ==> #[trigger] s[i] != '"' && s[i] != '\\' && (s[i] as u32) >= 0x20,
    ensures
        json_escape(s) == s,
    decreases s.len(),
{
    if s.len() > 0 {
        lemma_escape_plain(s.drop_last());
        assert(s.drop_last() + seq![s.last()] =~= s);
    }
}

/// Appends `t` escaped for a JSON string.
pub fn push_escaped(s: String, t: &str) -> (r: String)
    ensures
        r@ == s@ + json_escape(t@),
{
    let n = t.unicode_len();
    let mut out = s;
    let ghost start = out@;
    let mut i: usize = 0;
    while i < n
        invariant
            i <= n,
            n == t@.len(),
            out@ == start + json_escape(t@.take(i as int)),
        decreases n - i,
    {
        let c = t.get_char(i);
        let ghost before = out@;
        if c == '"' {
            proof {
                reveal_strlit("\\\"");
            }
            out = out.concat("\\\"");
        } else if c == '\\' {
            proof {
                reveal_strlit("\\\\");
            }
            out = out.concat("\\\\");
        } else if (c as u32) < 0x20 {
            proof {
                reveal_strlit("\\u00");
            }
            out = out.concat("\\u00");
            out = push_hex(out, (c as u32) / 16);
            out = push_hex(out, (c as u32) % 16);
        } else {
            out = out.concat(t.substring_char(i, i + 1));
            assert(t@.subrange(i as int, i + 1) =~= seq![c]);
        }
        proof {
            assert(t@.take(i + 1).drop_last() =~= t@.take(i as int));
            assert(t@.take(i + 1).last() == c);
            assert(out@ =~= before + json_escape_char(c));
            assert(out@ =~= start + json_escape(t@.take(i + 1)));
        }
        i = i + 1;
    }
    assert(t@.take(n as int) =~= t@);
    out
}

/// The JSON form of a component: `text`, then `color`, the style flag and `extra` where set.
pub open spec fn component_json(c: Component) -> Seq<char>
    decreases c,
{
    "{\"text\":\""@ + json_escape(c.text@) + "\""@ + match c.color {
        Some(k) => ",\"color\":\""@ + color_name(k) + "\""@,
        None => Seq::empty(),
    } + match c.style {
        Some(s) => ",\""@ + style_name(s) + "\":true"@,
        None => Seq::empty(),
    } + match c.extra {
        Some(v) => ",\"extra\":["@ + children_json(v@) + "]"@,
        None => Seq::empty(),
    } + "}"@
}

/// The JSON forms of components, separated by commas.
pub open spec fn children_json(s: Seq<Component>) -> Seq<char>
    decreases s,
{
    if s.len() == 0 {
        Seq::empty()
    } else if s.len() == 1 {
        component_json(s[0])
    } else {
        children_json(s.drop_last()) + ","@ + component_json(s.last())
    }
}

impl Component {
    /// Plain text.
    pub fn new(text: &str) -> (r: Component)
        ensures
            r.text@ == text@,
            r.extra is None,
            r.style is None,
            r.color is None,
    {
        Component { text: String::from_str(text), extra: None, style: None, color: None }
    }

    /// Coloured text.
    pub fn new_with_color(text: &str, color: TextColor) -> (r: Component)
        ensures
            r.text@ == text@,
            r.extra is None,
            r.style is None,
            r.color == Some(color),
    {
        Component { text: String::from_str(text), extra: None, style: None, color: Some(color) }
    }

    /// Adds a child after the existing ones.
    pub fn append(&mut self, other: Component)
        ensures
            final(self).text == old(self).text,
            final(self).style == old(self).style,
            final(self).color == old(self).color,
            final(self).extra matches Some(v) && v@ == match old(self).extra {
                Some(w) => w@,
                None => Seq::empty(),
            }.push(other),
    {
        match &mut self.extra {
            Some(v) => {
                v.push(other);
            },
            None => {
                let mut v: Vec<Component> = Vec::new();
                v.push(other);
                self.extra = Some(v);
            },
        }
    }

    pub fn style(&mut self, style: TextStyle)
        ensures
            final(self).style == Some(style),
            final(self).text == old(self).text,
            final(self).color == old(self).color,
            final(self).extra == old(self).extra,
    {
        self.style = Some(style);
    }

    pub fn color(&mut self, color: TextColor)
        ensures
            final(self).color == Some(color),
            final(self).text == old(self).text,
            final(self).style == old(self).style,
            final(self).extra == old(self).extra,
    {
        self.color = Some(color);
    }

    /// The component as JSON text.
    #[verifier::rlimit(50)]
    pub fn to_json(&self) -> (r: String)
        ensures
            r@ == component_json(*self),
        decreases self,
    {
        let mut s = String::from_str("{\"text\":\"");
        s = push_escaped(s, self.text.as_str());
        s = s.concat("\"");
        match &self.color {
            Some(k) => {
                s = s.concat(",\"color\":\"");
                let n = k.name();
                s = s.concat(n.as_str());
                s = s.concat("\"");
            },
            None => {},
        }
        match &self.style {
            Some(st) => {
                s = s.concat(",\"");
                s = s.concat(st.name());
                s = s.concat("\":true");
            },
            None => {},
        }
        match &self.extra {
            Some(v) => {
                s = s.concat(",\"extra\":[");
                let ghost head = s@;
                let mut i: usize = 0;
                while i < v.len()
                    invariant
                        i <= v@.len(),
                        s@ == head + children_json(v@.take(i as int)),
                        decreases_to!(*self => *v),
                    decreases v@.len() - i,
                {
                    if i > 0 {
                        s = s.concat(",");
                    }
                    proof {
                        assert(decreases_to!(*v => v[i as int]));
                    }
                    let child = v[i].to_json();
                    s = s.concat(child.as_str());
                    proof {
                        assert(v@.take(i + 1).drop_last() =~= v@.take(i as int));
                        if i == 0 {
                            assert(v@.take(1)[0] == v@[0]);
                            assert(s@ =~= head + children_json(v@.take(1)));
                        } else {
                            assert(s@ =~= head + children_json(v@.take(i + 1)));
                        }
                    }
                    i = i + 1;
                }
                assert(v@.take(v@.len() as int) =~= v@);
                s = s.concat("]");
            },
            None => {},
        }
        s = s.concat("}");
        assert(s@ =~= component_json(*self));
        s
    }

    /// The component as an NBT compound, as `component_nbt` says.
    pub open spec fn to_nbt_spec(&self) -> NbtValue {
        component_nbt(*self)
    }

    /// The component as an NBT compound.
    pub fn to_nbt(&self) -> (r: NBTTag)
        ensures
            r.model() == self.to_nbt_spec(),
        decreases self,
    {
        let mut entries: Vec<(String, NBTTag)> = Vec::new();
        entries.push((String::from_str("text"), NBTTag::String(self.text.clone())));
        match &self.color {
            Some(k) => entries.push((String::from_str("color"), NBTTag::String(k.name()))),
            None => {},
        }
        match &self.style {
            Some(st) => entries.push((String::from_str(st.name()), NBTTag::Byte(1))),
            None => {},
        }
        proof {
            crate::nbt::lemma_entries_model(entries@);
            assert(crate::nbt::entries_model(entries@) =~= head_entries(*self));
        }
        match &self.extra {
            Some(v) => {
                let mut children: Vec<NBTTag> = Vec::new();
                let mut i: usize = 0;
                while i < v.len()
                    invariant
                        i <= v@.len(),
                        decreases_to!(*self => *v),
                        crate::nbt::tags_model(children@) == children_nbt(v@.take(i as int)),
                    decreases v@.len() - i,
                {
                    proof {
                        assert(decreases_to!(*v => v[i as int]));
                        assert(v@.take(i + 1).drop_last() =~= v@.take(i as int));
                    }
                    let t = v[i].to_nbt();
                    proof {
                        assert(children@.push(t).drop_last() =~= children@);
                    }
                    children.push(t);
                    i = i + 1;
                }
                assert(v@.take(v@.len() as int) =~= v@);
                let ghost before = entries@;
                entries.push((String::from_str("extra"), NBTTag::List(children)));
                proof {
                    assert(entries@.drop_last() =~= before);
                    crate::nbt::lemma_entries_model(entries@);
                    assert(crate::nbt::entries_model(entries@) =~= head_entries(*self).push(
                        ("extra"@, NbtValue::List(children_nbt(v@))),
                    ));
                    assert(crate::nbt::entries_model(entries@) =~= head_entries(*self) + seq![
                        ("extra"@, NbtValue::List(children_nbt(v@))),
                    ]);
                }
            },
            None => {
                assert(crate::nbt::entries_model(entries@) =~= head_entries(*self) + Seq::<(Seq<char>, NbtValue)>::empty());
            },
        }
        NBTTag::Compound(entries)
    }
}

/// The `text`, `color` and style entries of a component's compound.
pub open spec fn head_entries(c: Component) -> Seq<(Seq<char>, NbtValue)> {
    seq![("text"@, NbtValue::Str(c.text@))] + match c.color {
        Some(k) => seq![("color"@, NbtValue::Str(color_name(k)))],
        None => Seq::empty(),
    } + match c.style {
        Some(st) => seq![(style_name(st), NbtValue::Byte(1))],
        None => Seq::empty(),
    }
}

/// A component as an NBT compound: `text`, then `color` and the style flag where set, then
/// `extra`, a list of the children's compounds, where it has children.
pub open spec fn component_nbt(c: Component) -> NbtValue
    decreases c,
{
    NbtValue::Compound(
        head_entries(c) + match c.extra {
            Some(v) => seq![("extra"@, NbtValue::List(children_nbt(v@)))],
            None => Seq::empty(),
        },
    )
}

/// The compounds of components, in order.
pub open spec fn children_nbt(s: Seq<Component>) -> Seq<NbtValue>
    decreases s,
{
    if s.len() == 0 {
        Seq::empty()
    } else {
        children_nbt(s.drop_last()).push(component_nbt(s.last()))
    }
}

} // verus!
