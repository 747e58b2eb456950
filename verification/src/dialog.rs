//! The native dialogs: their templates, and what their messages mean.

use vstd::prelude::*;

use crate::text::{chars_of, le16, le32, push_le16, push_le32};

verus! {

// ── what is asked for ──

/// What a password dialog is for.
#[derive(Clone, Copy, PartialEq, Eq, Debug, Structural)]
pub enum DialogMode {
    /// Asking for the password of a locked folder.
    AskPassword,
    /// Setting a password, with a confirmation.
    SetPassword,
}

/// The modes that the mode dialog offers.
#[derive(Clone, Copy, PartialEq, Eq, Debug, Structural)]
pub enum EncryptMode {
    /// Full encryption.
    Full,
    /// Simple encryption.
    Simple,
}

/// What a password dialog ended with.
#[derive(PartialEq, Eq, Debug)]
pub enum DialogResult {
    /// It was accepted.
    Accepted {
        /// The password.
        password: String,
        /// The confirmation, where one was asked for.
        confirm: Option<String>,
    },
    /// It was cancelled.
    Cancel,
}

/// The result of a password dialog: what was entered, if it was accepted.
pub fn password_dialog(mode: DialogMode, accepted: bool, first: String, second: String) -> (r:
    DialogResult)
    ensures
        r == if !accepted {
            DialogResult::Cancel
        } else {
            DialogResult::Accepted {
                password: first,
                confirm: match mode {
                    DialogMode::SetPassword => Some(second),
                    DialogMode::AskPassword => None,
                },
            }
        },
{
    if !accepted {
        DialogResult::Cancel
    } else {
        match mode {
            DialogMode::SetPassword => DialogResult::Accepted { password: first, confirm: Some(second) },
            DialogMode::AskPassword => DialogResult::Accepted { password: first, confirm: None },
        }
    }
}

/// The result of the mode dialog, by whether it was accepted and whether simple
/// encryption was checked.
pub fn encrypt_mode_dialog(accepted: bool, simple_checked: bool) -> (r: Option<EncryptMode>)
    ensures
        r == if !accepted {
            None
        } else if simple_checked {
            Some(EncryptMode::Simple)
        } else {
            Some(EncryptMode::Full)
        },
{
    if !accepted {
        None
    } else if simple_checked {
        Some(EncryptMode::Simple)
    } else {
        Some(EncryptMode::Full)
    }
}

// ── message boxes ──

/// A message box to show. `S` is the type of texts.
#[derive(PartialEq, Eq, Debug)]
pub struct MessageBox<S> {
    /// The text.
    pub text: S,
    /// The caption.
    pub caption: S,
    /// The icon and the buttons.
    pub flags: u32,
}

/// A message box with an error icon.
pub const MB_ICONERROR: u32 = 0x10;

/// A message box with an information icon.
pub const MB_ICONINFORMATION: u32 = 0x40;

/// A question with the buttons yes and no: an icon of 0x20 and buttons of 0x4.
pub const MB_QUESTION_YESNO: u32 = 0x24;

/// The code of the button yes.
pub const IDYES: i32 = 6;

/// A message box as texts.
pub open spec fn box_view(b: MessageBox<String>) -> MessageBox<Seq<char>> {
    MessageBox { text: b.text@, caption: b.caption@, flags: b.flags }
}

/// An error box with a text.
pub open spec fn error_box(text: Seq<char>) -> MessageBox<Seq<char>> {
    MessageBox { text, caption: "错误"@, flags: MB_ICONERROR }
}

/// An information box with a text.
pub open spec fn info_box(text: Seq<char>) -> MessageBox<Seq<char>> {
    MessageBox { text, caption: "Folder Lock"@, flags: MB_ICONINFORMATION }
}

/// A question with a text and a title.
pub open spec fn question_box(text: Seq<char>, title: Seq<char>) -> MessageBox<Seq<char>> {
    MessageBox { text, caption: title, flags: MB_QUESTION_YESNO }
}

/// The box that reports an error.
pub fn message_box_error(text: &str) -> (b: MessageBox<String>)
    ensures
        box_view(b) == error_box(text@),
{
    MessageBox {
        text: String::from_str(text),
        caption: String::from_str("错误"),
        flags: MB_ICONERROR,
    }
}

/// The box that gives an information.
pub fn message_box_info(text: &str) -> (b: MessageBox<String>)
    ensures
        box_view(b) == info_box(text@),
{
    MessageBox {
        text: String::from_str(text),
        caption: String::from_str("Folder Lock"),
        flags: MB_ICONINFORMATION,
    }
}

/// The box that asks a question.
pub fn message_box_yesno(text: &str, title: &str) -> (b: MessageBox<String>)
    ensures
        box_view(b) == question_box(text@, title@),
{
    MessageBox {
        text: String::from_str(text),
        caption: String::from_str(title),
        flags: MB_QUESTION_YESNO,
    }
}

/// Was a question answered with yes?
pub fn answered_yes(code: i32) -> (r: bool)
    ensures
        r == (code == IDYES),
{
    code == IDYES
}

// ── messages ──

/// The message that a dialog is being set up.
pub const WM_INITDIALOG: u32 = 0x110;

/// The message that a control was used.
pub const WM_COMMAND: u32 = 0x111;

/// The message that asks for the colour of an edit field.
pub const WM_CTLCOLOREDIT: u32 = 0x133;

/// The message that asks for the colour of the dialog.
pub const WM_CTLCOLORDLG: u32 = 0x136;

/// The message that asks for the colour of a text.
pub const WM_CTLCOLORSTATIC: u32 = 0x138;

/// The id of the accepting button.
pub const IDC_OK: u16 = 1;

/// The id of the cancelling button.
pub const IDC_CANCEL: u16 = 2;

/// What a message to a dialog means.
#[derive(Clone, Copy, PartialEq, Eq, Debug, Structural)]
pub enum DialogEvent {
    /// Set the dialog up.
    Init,
    /// The dialog was accepted.
    Accept,
    /// The dialog was cancelled.
    Cancel,
    /// Give the colour of the dialog.
    DialogColor,
    /// Give the colour of a text.
    StaticColor,
    /// Give the colour of an edit field.
    EditColor,
    /// Leave it to the system.
    Ignore,
}

/// What a message means: of a command, the low word is the control and the high
/// word is 0 for a click.
pub open spec fn event_of(msg: u32, wparam: usize, edits: bool) -> DialogEvent {
    if msg == WM_INITDIALOG {
        DialogEvent::Init
    } else if msg == WM_COMMAND {
        if wparam as int / 0x1_0000 % 0x1_0000 != 0 {
            DialogEvent::Ignore
        } else if wparam as int % 0x1_0000 == IDC_OK {
            DialogEvent::Accept
        } else if wparam as int % 0x1_0000 == IDC_CANCEL {
            DialogEvent::Cancel
        } else {
            DialogEvent::Ignore
        }
    } else if msg == WM_CTLCOLORDLG {
        DialogEvent::DialogColor
    } else if msg == WM_CTLCOLORSTATIC {
        DialogEvent::StaticColor
    } else if msg == WM_CTLCOLOREDIT && edits {
        DialogEvent::EditColor
    } else {
        DialogEvent::Ignore
    }
}

/// What a message to a dialog means; `edits` says whether the dialog has edit fields.
pub fn dialog_event(msg: u32, wparam: usize, edits: bool) -> (e: DialogEvent)
    ensures
        e == event_of(msg, wparam, edits),
{
    if msg == WM_INITDIALOG {
        DialogEvent::Init
    } else if msg == WM_COMMAND {
        let control: usize = wparam % 0x1_0000;
        if wparam / 0x1_0000 % 0x1_0000 != 0 {
            DialogEvent::Ignore
        } else if control == 1 {
            DialogEvent::Accept
        } else if control == 2 {
            DialogEvent::Cancel
        } else {
            DialogEvent::Ignore
        }
    } else if msg == WM_CTLCOLORDLG {
        DialogEvent::DialogColor
    } else if msg == WM_CTLCOLORSTATIC {
        DialogEvent::StaticColor
    } else if msg == WM_CTLCOLOREDIT && edits {
        DialogEvent::EditColor
    } else {
        DialogEvent::Ignore
    }
}

// ── wide texts ──

/// A character as UTF-16 code units.
pub open spec fn utf16(c: char) -> Seq<u16> {
    if (c as u32) < 0x1_0000 {
        seq![c as u32 as u16]
    } else {
        seq![
            (0xD800 + (c as u32 - 0x1_0000) / 0x400) as u16,
            (0xDC00 + (c as u32 - 0x1_0000) % 0x400) as u16,
        ]
    }
}

/// A text as UTF-16 code units.
pub open spec fn wide(s: Seq<char>) -> Seq<u16>
    decreases s.len(),
{
    if s.len() == 0 {
        Seq::empty()
    } else {
        wide(s.drop_last()) + utf16(s.last())
    }
}

/// Code units as bytes, lowest first.
pub open spec fn unit_bytes(units: Seq<u16>) -> Seq<u8>
    decreases units.len(),
{
    if units.len() == 0 {
        Seq::empty()
    } else {
        unit_bytes(units.drop_last()) + le16(units.last() as int)
    }
}

/// A text as UTF-16 code units with a zero behind it.
pub fn to_wide(s: &str) -> (v: Vec<u16>)
    ensures
        v@ == wide(s@).push(0),
{
    let chars = chars_of(s);
    let mut v: Vec<u16> = Vec::new();
    let mut i: usize = 0;
    assert(s@.take(0) =~= Seq::empty());
    while i < chars.len()
        invariant
            i <= chars@.len(),
            chars@ == s@,
            v@ == wide(s@.take(i as int)),
        decreases chars.len() - i,
    {
        let u: u32 = chars[i] as u32;
        let ghost before = v@;
        if u < 0x1_0000 {
            v.push(u as u16);
        } else {
            let x: u32 = u - 0x1_0000;
            v.push((0xD800 + x / 0x400) as u16);
            v.push((0xDC00 + x % 0x400) as u16);
        }
        proof {
            assert(v@ =~= before + utf16(s@[i as int]));
            assert(s@.take(i + 1).drop_last() =~= s@.take(i as int));
            assert(s@.take(i + 1).last() == s@[i as int]);
        }
        i = i + 1;
    }
    assert(s@.take(i as int) =~= s@);
    v.push(0);
    v
}

/// A text as it stands in a template.
pub open spec fn wide_text(s: Seq<char>) -> Seq<u8> {
    unit_bytes(wide(s).push(0))
}

fn push_wide(buf: &mut Vec<u8>, s: &str)
    ensures
        final(buf)@ == old(buf)@ + wide_text(s@),
{
    let units = to_wide(s);
    let mut i: usize = 0;
    assert(units@.take(0) =~= Seq::empty());
    assert(buf@ =~= old(buf)@ + unit_bytes(units@.take(0)));
    while i < units.len()
        invariant
            i <= units@.len(),
            buf@ == old(buf)@ + unit_bytes(units@.take(i as int)),
        decreases units.len() - i,
    {
        push_le16(buf, units[i]);
        proof {
            assert(units@.take(i + 1).drop_last() =~= units@.take(i as int));
            assert(buf@ =~= old(buf)@ + unit_bytes(units@.take(i + 1)));
        }
        i = i + 1;
    }
    assert(units@.take(i as int) =~= units@);
}

// ── templates ──

/// A control of a dialog. `S` is the type of texts.
pub struct Control<S> {
    /// The style.
    pub style: u32,
    /// The extended style.
    pub ex_style: u32,
    /// The left edge.
    pub x: i16,
    /// The upper edge.
    pub y: i16,
    /// The width.
    pub cx: i16,
    /// The height.
    pub cy: i16,
    /// The id.
    pub id: u16,
    /// The class.
    pub class: u16,
    /// The text.
    pub text: S,
}

/// A control with its text as a sequence.
pub open spec fn control_view(c: Control<&'static str>) -> Control<Seq<char>> {
    Control {
        style: c.style,
        ex_style: c.ex_style,
        x: c.x,
        y: c.y,
        cx: c.cx,
        cy: c.cy,
        id: c.id,
        class: c.class,
        text: c.text@,
    }
}

/// The controls of a list.
pub open spec fn controls_view(list: Seq<Control<&'static str>>) -> Seq<Control<Seq<char>>> {
    list.map_values(|c: Control<&'static str>| control_view(c))
}

/// The bytes that a buffer lacks to the next multiple of four.
pub open spec fn aligned(buf: Seq<u8>) -> Seq<u8> {
    buf + Seq::new(((4 - buf.len() % 4) % 4) as nat, |i: int| 0u8)
}

/// A control as it stands in a template.
pub open spec fn control_bytes(c: Control<Seq<char>>) -> Seq<u8> {
    le32(c.style as int) + le32(c.ex_style as int) + le16(c.x as int) + le16(c.y as int) + le16(
        c.cx as int,
    ) + le16(c.cy as int) + le16(c.id as int) + le16(0xFFFF) + le16(c.class as int) + wide_text(
        c.text,
    ) + le16(0)
}

/// A template with the controls of a list behind it, each at a multiple of four.
pub open spec fn with_controls(buf: Seq<u8>, list: Seq<Control<Seq<char>>>) -> Seq<u8>
    decreases list.len(),
{
    if list.len() == 0 {
        buf
    } else {
        aligned(with_controls(buf, list.drop_last())) + control_bytes(list.last())
    }
}

/// The front of a template: style, number of controls, size, title and font.
pub open spec fn template_head(count: int, cx: i16, cy: i16, title: Seq<char>) -> Seq<u8> {
    le32(0x1002_08C0) + le32(0) + le16(count) + le16(0) + le16(0) + le16(cx as int) + le16(
        cy as int,
    ) + le16(0) + le16(0) + wide_text(title) + le16(10) + le16(400) + seq![0u8, 1u8] + wide_text(
        "Segoe UI"@,
    )
}

fn push_i16(buf: &mut Vec<u8>, v: i16)
    ensures
        final(buf)@ == old(buf)@ + le16(v as int),
{
    let n: i32 = v as i32;
    let u: u16 = if n < 0 {
        (n + 0x1_0000) as u16
    } else {
        n as u16
    };
    proof {
        let a = v as int;
        let b = u as int;
        assert(a == b || a + 0x1_0000 == b);
        if a + 0x1_0000 == b {
            assert(b % 0x100 == a % 0x100);
            assert(b / 0x100 == a / 0x100 + 0x100);
        }
        assert(le16(a) =~= le16(b));
    }
    push_le16(buf, u);
}

fn align_dword(buf: &mut Vec<u8>)
    ensures
        final(buf)@ == aligned(old(buf)@),
{
    let ghost start = buf@;
    let ghost n = buf@.len();
    let mut left: usize = (4 - buf.len() % 4) % 4;
    let ghost want = left as int;
    while left > 0
        invariant
            0 <= left <= want,
            buf@ =~= start + Seq::new((want - left) as nat, |i: int| 0u8),
        decreases left,
    {
        buf.push(0);
        left = left - 1;
    }
    assert(buf@ =~= aligned(start));
}

fn add_control(buf: &mut Vec<u8>, c: &Control<&'static str>)
    ensures
        final(buf)@ == aligned(old(buf)@) + control_bytes(control_view(*c)),
{
    align_dword(buf);
    let ghost start = buf@;
    push_le32(buf, c.style);
    push_le32(buf, c.ex_style);
    push_i16(buf, c.x);
    push_i16(buf, c.y);
    push_i16(buf, c.cx);
    push_i16(buf, c.cy);
    push_le16(buf, c.id);
    push_le16(buf, 0xFFFF);
    push_le16(buf, c.class);
    push_wide(buf, c.text);
    push_le16(buf, 0);
    assert(buf@ =~= start + control_bytes(control_view(*c)));
}

fn add_controls(buf: &mut Vec<u8>, list: &Vec<Control<&'static str>>)
    ensures
        final(buf)@ == with_controls(old(buf)@, controls_view(list@)),
{
    let ghost all = controls_view(list@);
    let mut i: usize = 0;
    assert(all.take(0) =~= Seq::empty());
    while i < list.len()
        invariant
            i <= list@.len(),
            all == controls_view(list@),
            buf@ == with_controls(old(buf)@, all.take(i as int)),
        decreases list.len() - i,
    {
        add_control(buf, &list[i]);
        proof {
            assert(all.take(i + 1).drop_last() =~= all.take(i as int));
            assert(all.take(i + 1).last() == control_view(list@[i as int]));
        }
        i = i + 1;
    }
    assert(all.take(i as int) =~= all);
}

fn push_head(buf: &mut Vec<u8>, count: u16, cx: i16, cy: i16, title: &str)
    ensures
        final(buf)@ == old(buf)@ + template_head(count as int, cx, cy, title@),
{
    push_le32(buf, 0x1002_08C0);
    push_le32(buf, 0);
    push_le16(buf, count);
    push_le16(buf, 0);
    push_le16(buf, 0);
    push_i16(buf, cx);
    push_i16(buf, cy);
    push_le16(buf, 0);
    push_le16(buf, 0);
    push_wide(buf, title);
    push_le16(buf, 10);
    push_le16(buf, 400);
    buf.push(0);
    buf.push(1);
    push_wide(buf, "Segoe UI");
    assert(buf@ =~= old(buf)@ + template_head(count as int, cx, cy, title@));
}

/// The kinds of control that the dialogs are made of.
#[derive(Clone, Copy, PartialEq, Eq, Debug, Structural)]
pub enum Kind {
    /// A text.
    Static,
    /// A password field.
    Edit,
    /// A button.
    Button,
    /// The button that return presses.
    DefaultButton,
    /// A frame.
    GroupBox,
    /// A choice.
    Radio,
}

/// The style, the extended style and the class of a kind of control.
pub open spec fn kind_styles(kind: Kind) -> (u32, u32, u16) {
    match kind {
        Kind::Static => (0x50020000, 0x0, 0x82),
        Kind::Edit => (0x508100A0, 0x200, 0x81),
        Kind::Button => (0x50010000, 0x0, 0x80),
        Kind::DefaultButton => (0x50010001, 0x0, 0x80),
        Kind::GroupBox => (0x50000007, 0x0, 0x80),
        Kind::Radio => (0x50030009, 0x0, 0x80),
    }
}

/// A control of a kind at a place.
pub open spec fn placed(
    kind: Kind,
    id: u16,
    text: Seq<char>,
    x: i16,
    y: i16,
    cx: i16,
    cy: i16,
) -> Control<Seq<char>> {
    let (style, ex_style, class) = kind_styles(kind);
    Control { style, ex_style, x, y, cx, cy, id, class, text }
}

fn place(kind: Kind, id: u16, text: &'static str, x: i16, y: i16, cx: i16, cy: i16) -> (c: Control<
    &'static str,
>)
    ensures
        control_view(c) == placed(kind, id, text@, x, y, cx, cy),
{
    let (style, ex_style, class): (u32, u32, u16) = match kind {
        Kind::Static => (0x50020000, 0x0, 0x82),
        Kind::Edit => (0x508100A0, 0x200, 0x81),
        Kind::Button => (0x50010000, 0x0, 0x80),
        Kind::DefaultButton => (0x50010001, 0x0, 0x80),
        Kind::GroupBox => (0x50000007, 0x0, 0x80),
        Kind::Radio => (0x50030009, 0x0, 0x80),
    };
    Control { style, ex_style, x, y, cx, cy, id, class, text }
}

/// The controls of a password dialog: the banner, a frame with the fields, and the
/// buttons.
pub open spec fn password_controls(mode: DialogMode) -> Seq<Control<Seq<char>>> {
    match mode {
        DialogMode::SetPassword => seq![
            placed(Kind::Static, 100, ""@, 60, 8, 250, 18),
            placed(Kind::Static, 101, ""@, 60, 28, 250, 14),
            placed(Kind::GroupBox, 102, "密码"@, 12, 50, 306, 76),
            placed(Kind::Static, 103, "密码:"@, 24, 66, 40, 14),
            placed(Kind::Edit, 104, ""@, 70, 64, 240, 14),
            placed(Kind::Static, 105, "确认:"@, 24, 88, 40, 14),
            placed(Kind::Edit, 106, ""@, 70, 86, 240, 14),
            placed(Kind::DefaultButton, 1, "确定"@, 194, 136, 56, 16),
            placed(Kind::Button, 2, "取消"@, 258, 136, 56, 16),
        ],
        DialogMode::AskPassword => seq![
            placed(Kind::Static, 100, ""@, 60, 8, 250, 18),
            placed(Kind::Static, 101, ""@, 60, 28, 250, 14),
            placed(Kind::GroupBox, 102, "密码"@, 12, 50, 306, 48),
            placed(Kind::Static, 103, "密码:"@, 24, 66, 40, 14),
            placed(Kind::Edit, 104, ""@, 70, 64, 240, 14),
            placed(Kind::DefaultButton, 1, "确定"@, 194, 108, 56, 16),
            placed(Kind::Button, 2, "取消"@, 258, 108, 56, 16),
        ],
    }
}

/// The controls of the mode dialog: the banner, a frame with the choices and what
/// they mean, and the buttons.
pub open spec fn mode_controls() -> Seq<Control<Seq<char>>> {
    seq![
        placed(Kind::Static, 100, ""@, 60, 8, 270, 18),
        placed(Kind::Static, 101, ""@, 60, 28, 270, 14),
        placed(Kind::GroupBox, 202, "加密模式"@, 12, 50, 336, 108),
        placed(Kind::Radio, 200, "完全加密"@, 24, 66, 312, 14),
        placed(Kind::Static, 103, "完全加密 — 使用 AES-256 加密所有文件内容，\n速度较慢但安全性最高。"@, 40, 82, 296, 24),
        placed(Kind::Radio, 201, "简单加密"@, 24, 112, 312, 14),
        placed(Kind::Static, 105, "简单加密 — 利用 NTFS ADS 隐藏文件，\n速度快，适合大文件文件夹。"@, 40, 128, 296, 24),
        placed(Kind::DefaultButton, 1, "确定"@, 224, 170, 56, 16),
        placed(Kind::Button, 2, "取消"@, 288, 170, 56, 16),
    ]
}

/// The template of a password dialog.
pub open spec fn password_template(mode: DialogMode, title: Seq<char>) -> Seq<u8> {
    let controls = password_controls(mode);
    with_controls(
        template_head(
            controls.len() as int,
            330,
            match mode {
                DialogMode::SetPassword => 185,
                DialogMode::AskPassword => 155,
            },
            title,
        ),
        controls,
    )
}

/// The template of the mode dialog.
pub open spec fn mode_template() -> Seq<u8> {
    with_controls(
        template_head(mode_controls().len() as int, 360, 220, "选择加密模式"@),
        mode_controls(),
    )
}

fn list_password_controls(mode: DialogMode) -> (list: Vec<Control<&'static str>>)
    ensures
        controls_view(list@) == password_controls(mode),
{
    let mut list: Vec<Control<&'static str>> = Vec::new();
    match mode {
        DialogMode::SetPassword => {
            list.push(place(Kind::Static, 100, "", 60, 8, 250, 18));
            list.push(place(Kind::Static, 101, "", 60, 28, 250, 14));
            list.push(place(Kind::GroupBox, 102, "密码", 12, 50, 306, 76));
            list.push(place(Kind::Static, 103, "密码:", 24, 66, 40, 14));
            list.push(place(Kind::Edit, 104, "", 70, 64, 240, 14));
            list.push(place(Kind::Static, 105, "确认:", 24, 88, 40, 14));
            list.push(place(Kind::Edit, 106, "", 70, 86, 240, 14));
            list.push(place(Kind::DefaultButton, 1, "确定", 194, 136, 56, 16));
            list.push(place(Kind::Button, 2, "取消", 258, 136, 56, 16));
        },
        DialogMode::AskPassword => {
            list.push(place(Kind::Static, 100, "", 60, 8, 250, 18));
            list.push(place(Kind::Static, 101, "", 60, 28, 250, 14));
            list.push(place(Kind::GroupBox, 102, "密码", 12, 50, 306, 48));
            list.push(place(Kind::Static, 103, "密码:", 24, 66, 40, 14));
            list.push(place(Kind::Edit, 104, "", 70, 64, 240, 14));
            list.push(place(Kind::DefaultButton, 1, "确定", 194, 108, 56, 16));
            list.push(place(Kind::Button, 2, "取消", 258, 108, 56, 16));
        },
    }
    assert(controls_view(list@) =~= password_controls(mode));
    list
}

fn list_mode_controls() -> (list: Vec<Control<&'static str>>)
    ensures
        controls_view(list@) == mode_controls(),
{
    let mut list: Vec<Control<&'static str>> = Vec::new();
    list.push(place(Kind::Static, 100, "", 60, 8, 270, 18));
    list.push(place(Kind::Static, 101, "", 60, 28, 270, 14));
    list.push(place(Kind::GroupBox, 202, "加密模式", 12, 50, 336, 108));
    list.push(place(Kind::Radio, 200, "完全加密", 24, 66, 312, 14));
    list.push(place(Kind::Static, 103, "完全加密 — 使用 AES-256 加密所有文件内容，\n速度较慢但安全性最高。", 40, 82, 296, 24));
    list.push(place(Kind::Radio, 201, "简单加密", 24, 112, 312, 14));
    list.push(place(Kind::Static, 105, "简单加密 — 利用 NTFS ADS 隐藏文件，\n速度快，适合大文件文件夹。", 40, 128, 296, 24));
    list.push(place(Kind::DefaultButton, 1, "确定", 224, 170, 56, 16));
    list.push(place(Kind::Button, 2, "取消", 288, 170, 56, 16));
    assert(controls_view(list@) =~= mode_controls());
    list
}

/// Build the template of a password dialog.
pub fn build_template(mode: DialogMode, title: &str) -> (buf: Vec<u8>)
    ensures
        buf@ == password_template(mode, title@),
{
    let list = list_password_controls(mode);
    assert(list@.len() == password_controls(mode).len());
    let mut buf: Vec<u8> = Vec::new();
    let cy: i16 = match mode {
        DialogMode::SetPassword => 185,
        DialogMode::AskPassword => 155,
    };
    push_head(&mut buf, list.len() as u16, 330, cy, title);
    assert(buf@ =~= template_head(list@.len() as int, 330, cy, title@));
    add_controls(&mut buf, &list);
    buf
}

/// Build the template of the mode dialog.
pub fn build_mode_template() -> (buf: Vec<u8>)
    ensures
        buf@ == mode_template(),
{
    let list = list_mode_controls();
    assert(list@.len() == mode_controls().len());
    let mut buf: Vec<u8> = Vec::new();
    push_head(&mut buf, list.len() as u16, 360, 220, "选择加密模式");
    assert(buf@ =~= template_head(list@.len() as int, 360, 220, "选择加密模式"@));
    add_controls(&mut buf, &list);
    buf
}

/// A template announces as many controls as follow it, in the two bytes at offset
/// eight: nine where a password is set or a mode chosen, seven where one is asked
/// for.
pub proof fn templates_announce_their_controls(mode: DialogMode, title: Seq<char>)
    ensures
        password_template(mode, title).subrange(8, 10) == le16(
            match mode {
                DialogMode::SetPassword => 9,
                DialogMode::AskPassword => 7,
            },
        ),
        mode_template().subrange(8, 10) == le16(9),
{
    let c = password_controls(mode);
    let cy: i16 = match mode {
        DialogMode::SetPassword => 185,
        DialogMode::AskPassword => 155,
    };
    let count: int = match mode {
        DialogMode::SetPassword => 9,
        DialogMode::AskPassword => 7,
    };
    assert(c.len() == count);
    lemma_head_announces(count, 330, cy, title);
    lemma_controls_follow(template_head(count, 330, cy, title), c);
    assert(mode_controls().len() == 9);
    lemma_head_announces(9, 360, 220, "选择加密模式"@);
    lemma_controls_follow(template_head(9, 360, 220, "选择加密模式"@), mode_controls());
}

proof fn lemma_head_announces(count: int, cx: i16, cy: i16, title: Seq<char>)
    ensures
        template_head(count, cx, cy, title).len() >= 10,
        template_head(count, cx, cy, title).subrange(8, 10) == le16(count),
{
    let front = le32(0x1002_08C0) + le32(0) + le16(count);
    let h = template_head(count, cx, cy, title);
    assert(front.len() == 10);
    assert(h.take(10) =~= front);
    assert(h.subrange(8, 10) =~= h.take(10).subrange(8, 10));
    assert(front.subrange(8, 10) =~= le16(count));
}

proof fn lemma_controls_follow(buf: Seq<u8>, list: Seq<Control<Seq<char>>>)
    ensures
        with_controls(buf, list).len() >= buf.len(),
        buf.len() >= 10 ==> with_controls(buf, list).subrange(8, 10) == buf.subrange(8, 10),
    decreases list.len(),
{
    if list.len() > 0 {
        lemma_controls_follow(buf, list.drop_last());
        let before = with_controls(buf, list.drop_last());
        assert(buf.len() >= 10 ==> with_controls(buf, list).subrange(8, 10) =~= before.subrange(
            8,
            10,
        ));
    }
}

// ── laws ──

/// A dialog ends by a click on one of its two buttons and by nothing else: the button
/// with the id 1 accepts it, the one with the id 2 cancels it.
pub proof fn only_the_buttons_end_a_dialog(msg: u32, wparam: usize, edits: bool, e: DialogEvent)
    requires
        call_ensures(dialog_event, (msg, wparam, edits), e),
    ensures
        e == DialogEvent::Accept <==> msg == 0x111 && wparam as int % 0x1_0000 == 1 && wparam as int
            / 0x1_0000 % 0x1_0000 == 0,
        e == DialogEvent::Cancel <==> msg == 0x111 && wparam as int % 0x1_0000 == 2 && wparam as int
            / 0x1_0000 % 0x1_0000 == 0,
        e == DialogEvent::Init <==> msg == 0x110,
        e == DialogEvent::DialogColor <==> msg == 0x136,
        e == DialogEvent::StaticColor <==> msg == 0x138,
        e == DialogEvent::EditColor <==> msg == 0x133 && edits,
{
}

/// An accepted password dialog gives what was entered, with the second field as the
/// confirmation where a password is set and without one where it is asked for; one that
/// was not accepted gives nothing.
pub proof fn password_dialog_gives_what_was_entered(
    mode: DialogMode,
    accepted: bool,
    first: String,
    second: String,
    r: DialogResult,
)
    requires
        call_ensures(password_dialog, (mode, accepted, first, second), r),
    ensures
        !accepted <==> r is Cancel,
        r matches DialogResult::Accepted { password, confirm } ==> {
            &&& password@ == first@
            &&& mode == DialogMode::SetPassword ==> (confirm matches Some(c) && c@ == second@)
            &&& mode == DialogMode::AskPassword ==> confirm is None
        },
{
}

/// An accepted mode dialog gives the simple mode exactly where that was checked.
pub proof fn mode_dialog_gives_what_was_checked(
    accepted: bool,
    simple_checked: bool,
    r: Option<EncryptMode>,
)
    requires
        call_ensures(encrypt_mode_dialog, (accepted, simple_checked), r),
    ensures
        r is None <==> !accepted,
        r == Some(EncryptMode::Simple) <==> accepted && simple_checked,
        r == Some(EncryptMode::Full) <==> accepted && !simple_checked,
{
}

/// Every message box shows the text that it is given: an error with the icon 0x10, an
/// information with the icon 0x40, and a question with its title, the icon 0x20 and the
/// buttons yes and no, of which yes has the code 6.
pub proof fn boxes_show_their_texts(
    text: &str,
    title: &str,
    error: MessageBox<String>,
    info: MessageBox<String>,
    question: MessageBox<String>,
    code: i32,
    yes: bool,
)
    requires
        call_ensures(message_box_error, (text,), error),
        call_ensures(message_box_info, (text,), info),
        call_ensures(message_box_yesno, (text, title), question),
        call_ensures(answered_yes, (code,), yes),
    ensures
        error.text@ == text@ && error.caption@ == "错误"@ && error.flags == 0x10,
        info.text@ == text@ && info.caption@ == "Folder Lock"@ && info.flags == 0x40,
        question.text@ == text@ && question.caption@ == title@ && question.flags == 0x24,
        yes <==> code == 6,
{
}

/// A character is written as itself where it fits one unit, and otherwise as two units
/// from the ranges that stand for such characters, which hold the rest of it.
pub proof fn characters_are_written_in_units(front: Seq<char>, c: char)
    ensures
        wide(front.push(c)) == wide(front) + utf16(c),
        (c as int) < 0x1_0000 ==> utf16(c).len() == 1 && utf16(c)[0] as int == c as int,
        (c as int) >= 0x1_0000 ==> {
            let u = utf16(c);
            &&& u.len() == 2
            &&& 0xD800 <= u[0] < 0xDC00
            &&& 0xDC00 <= u[1] < 0xE000
            &&& c as int == 0x1_0000 + (u[0] - 0xD800) * 0x400 + (u[1] - 0xDC00)
        },
{
    assert(front.push(c).drop_last() =~= front);
    assert(front.push(c).last() == c);
}

/// A wide text ends with a zero, and one whose characters each fit one unit has a unit
/// for each of them.
pub proof fn wide_text_ends_with_zero(s: &str, v: Vec<u16>)
    requires
        call_ensures(to_wide, (s,), v),
    ensures
        v@.len() >= 1,
        v@.last() == 0,
        v@.drop_last() == wide(s@),
        (forall|i: int| 0 <= i < s@.len() ==> (#[trigger] s@[i] as int) < 0x1_0000) ==> v@.len()
            == s@.len() + 1 && forall|i: int|
            0 <= i < s@.len() ==> #[trigger] v@[i] as int == s@[i] as int,
{
    assert(v@.drop_last() =~= wide(s@));
    if forall|i: int| 0 <= i < s@.len() ==> (#[trigger] s@[i] as int) < 0x1_0000 {
        lemma_narrow(s@);
    }
}

proof fn lemma_narrow(s: Seq<char>)
    requires
        forall|i: int| 0 <= i < s.len() ==> (#[trigger] s[i] as int) < 0x1_0000,
    ensures
        wide(s).len() == s.len(),
        forall|i: int| 0 <= i < s.len() ==> #[trigger] wide(s)[i] as int == s[i] as int,
    decreases s.len(),
{
    if s.len() > 0 {
        let front = s.drop_last();
        assert forall|i: int| 0 <= i < front.len() implies (#[trigger] front[i] as int)
            < 0x1_0000 by {
            assert(front[i] == s[i]);
        }
        lemma_narrow(front);
        let c = s[s.len() - 1];
        assert((c as int) < 0x1_0000);
        assert(s =~= front.push(c));
        characters_are_written_in_units(front, c);
        assert forall|i: int| 0 <= i < s.len() implies #[trigger] wide(s)[i] as int
            == s[i] as int by {
            if i < front.len() {
                assert(wide(s)[i] == wide(front)[i]);
            }
        }
    }
}

/// Is there a control of this kind with this id among these?
pub open spec fn has_control(list: Seq<Control<Seq<char>>>, kind: Kind, id: u16) -> bool {
    exists|i: int|
        0 <= i < list.len() && (#[trigger] list[i]).id == id && (
            list[i].style,
            list[i].ex_style,
            list[i].class,
        ) == kind_styles(kind)
}

/// Do all controls lie inside a dialog of this size, each with an id of its own?
pub open spec fn lies_inside(list: Seq<Control<Seq<char>>>, cx: int, cy: int) -> bool {
    &&& forall|i: int|
        0 <= i < list.len() ==> 0 <= (#[trigger] list[i]).x && 0 <= list[i].y && 0 < list[i].cx
            && 0 < list[i].cy && list[i].x + list[i].cx <= cx && list[i].y + list[i].cy <= cy
    &&& forall|i: int, j: int|
        0 <= i < j < list.len() ==> (#[trigger] list[i]).id != (#[trigger] list[j]).id
}

/// Every dialog has the button that accepts it and the one that cancels it; a password
/// dialog has a field for the password, and one for the confirmation exactly where a
/// password is set; the mode dialog has a choice for each mode. All of it lies inside.
pub proof fn dialogs_have_what_they_need(mode: DialogMode)
    ensures
        has_control(password_controls(mode), Kind::DefaultButton, 1),
        has_control(password_controls(mode), Kind::Button, 2),
        has_control(password_controls(mode), Kind::Edit, 104),
        has_control(password_controls(mode), Kind::Edit, 106) <==> mode == DialogMode::SetPassword,
        lies_inside(
            password_controls(mode),
            330,
            if mode == DialogMode::SetPassword {
                185
            } else {
                155
            },
        ),
        has_control(mode_controls(), Kind::DefaultButton, 1),
        has_control(mode_controls(), Kind::Button, 2),
        has_control(mode_controls(), Kind::Radio, 200),
        has_control(mode_controls(), Kind::Radio, 201),
        lies_inside(mode_controls(), 360, 220),
{
    let c = password_controls(mode);
    let m = mode_controls();
    assert(c[4].id == 104);
    if mode == DialogMode::SetPassword {
        assert(c[6].id == 106 && c[7].id == 1 && c[8].id == 2);
    } else {
        assert(c[5].id == 1 && c[6].id == 2);
    }
    assert(m[3].id == 200 && m[5].id == 201 && m[7].id == 1 && m[8].id == 2);
}

/// The bytes of a template: a control has its style, its place and size, its id behind
/// sixteen bytes, its class, its text and nothing more; each stands at a multiple of
/// four.
#[verifier::rlimit(30)]
pub proof fn control_is_laid_out(c: Control<Seq<char>>, buf: Seq<u8>)
    ensures
        aligned(buf).len() % 4 == 0,
        aligned(buf).len() < buf.len() + 4,
        aligned(buf).take(buf.len() as int) == buf,
        ({
            let b = control_bytes(c);
            let n = wide_text(c.text).len() as int;
            &&& b.len() == 24 + n
            &&& b.take(4) == le32(c.style as int)
            &&& b.subrange(4, 8) == le32(c.ex_style as int)
            &&& b.subrange(8, 10) == le16(c.x as int)
            &&& b.subrange(10, 12) == le16(c.y as int)
            &&& b.subrange(12, 14) == le16(c.cx as int)
            &&& b.subrange(14, 16) == le16(c.cy as int)
            &&& b.subrange(16, 18) == le16(c.id as int)
            &&& b[18] == 255 && b[19] == 255
            &&& b.subrange(20, 22) == le16(c.class as int)
            &&& b.subrange(22, 22 + n) == wide_text(c.text)
            &&& b[22 + n] == 0 && b[23 + n] == 0
        }),
{
    let b = control_bytes(c);
    let n = wide_text(c.text).len() as int;
    assert(b.len() == 24 + n);
    assert(b.take(4) =~= le32(c.style as int));
    assert(b.subrange(4, 8) =~= le32(c.ex_style as int));
    assert(b.subrange(8, 10) =~= le16(c.x as int));
    assert(b.subrange(10, 12) =~= le16(c.y as int));
    assert(b.subrange(12, 14) =~= le16(c.cx as int));
    assert(b.subrange(14, 16) =~= le16(c.cy as int));
    assert(b.subrange(16, 18) =~= le16(c.id as int));
    assert(b.subrange(18, 20) =~= le16(0xFFFF));
    assert(b[18] == b.subrange(18, 20)[0] && b[19] == b.subrange(18, 20)[1]);
    assert(b.subrange(20, 22) =~= le16(c.class as int));
    assert(b.subrange(22, 22 + n) =~= wide_text(c.text));
    assert(b.subrange(22 + n, 24 + n) =~= le16(0));
    assert(b[22 + n] == b.subrange(22 + n, 24 + n)[0] && b[23 + n] == b.subrange(
        22 + n,
        24 + n,
    )[1]);
    assert(aligned(buf).take(buf.len() as int) =~= buf);
}

/// The front of a template has its size at the offset 14 and its title at the offset 22.
#[verifier::rlimit(30)]
pub proof fn template_is_laid_out(mode: DialogMode, title: Seq<char>)
    ensures
        ({
            let t = password_template(mode, title);
            let n = wide_text(title).len() as int;
            &&& t.len() >= 22 + n
            &&& t.subrange(14, 16) == le16(330)
            &&& t.subrange(16, 18) == le16(
                if mode == DialogMode::SetPassword {
                    185
                } else {
                    155
                },
            )
            &&& t.subrange(22, 22 + n) == wide_text(title)
        }),
        mode_template().subrange(14, 16) == le16(360),
        mode_template().subrange(16, 18) == le16(220),
{
    let c = password_controls(mode);
    let cy: i16 = match mode {
        DialogMode::SetPassword => 185,
        DialogMode::AskPassword => 155,
    };
    let h = template_head(c.len() as int, 330, cy, title);
    lemma_head_layout(c.len() as int, 330, cy, title);
    lemma_head_stays(h, c, 22 + wide_text(title).len() as int);
    let t = password_template(mode, title);
    let k = 22 + wide_text(title).len() as int;
    assert(t.subrange(14, 16) =~= t.take(k).subrange(14, 16));
    assert(t.subrange(16, 18) =~= t.take(k).subrange(16, 18));
    assert(t.subrange(22, k) =~= t.take(k).subrange(22, k));
    assert(h.take(k).subrange(14, 16) =~= h.subrange(14, 16));
    assert(h.take(k).subrange(16, 18) =~= h.subrange(16, 18));
    assert(h.take(k).subrange(22, k) =~= h.subrange(22, k));
    let m = template_head(mode_controls().len() as int, 360, 220, "选择加密模式"@);
    lemma_head_layout(mode_controls().len() as int, 360, 220, "选择加密模式"@);
    lemma_head_stays(m, mode_controls(), 22);
    let u = mode_template();
    assert(u.subrange(14, 16) =~= u.take(22).subrange(14, 16));
    assert(u.subrange(16, 18) =~= u.take(22).subrange(16, 18));
    assert(m.take(22).subrange(14, 16) =~= m.subrange(14, 16));
    assert(m.take(22).subrange(16, 18) =~= m.subrange(16, 18));
}

proof fn lemma_head_layout(count: int, cx: i16, cy: i16, title: Seq<char>)
    ensures
        ({
            let h = template_head(count, cx, cy, title);
            let n = wide_text(title).len() as int;
            &&& h.len() >= 22 + n
            &&& h.subrange(14, 16) == le16(cx as int)
            &&& h.subrange(16, 18) == le16(cy as int)
            &&& h.subrange(22, 22 + n) == wide_text(title)
        }),
{
    let h = template_head(count, cx, cy, title);
    let n = wide_text(title).len() as int;
    assert(h.subrange(14, 16) =~= le16(cx as int));
    assert(h.subrange(16, 18) =~= le16(cy as int));
    assert(h.subrange(22, 22 + n) =~= wide_text(title));
}

proof fn lemma_head_stays(buf: Seq<u8>, list: Seq<Control<Seq<char>>>, k: int)
    requires
        0 <= k <= buf.len(),
    ensures
        with_controls(buf, list).len() >= buf.len(),
        with_controls(buf, list).take(k) == buf.take(k),
    decreases list.len(),
{
    if list.len() > 0 {
        lemma_head_stays(buf, list.drop_last(), k);
        let before = with_controls(buf, list.drop_last());
        assert(with_controls(buf, list).take(k) =~= before.take(k));
    }
}

/// A field for a password hides what is typed, every control is visible, and return
/// presses the default button.
pub proof fn kinds_have_their_styles(kind: Kind)
    ensures
        kind_styles(kind).0 / 0x1000_0000 == 5,
        kind == Kind::Edit <==> kind_styles(kind).2 == 0x81,
        kind == Kind::Static <==> kind_styles(kind).2 == 0x82,
        kind == Kind::Edit ==> kind_styles(kind).0 / 0x20 % 2 == 1,
        kind == Kind::DefaultButton ==> kind_styles(kind).0 % 0x10 == 1,
        kind == Kind::Button ==> kind_styles(kind).0 % 0x10 == 0,
        kind == Kind::Radio ==> kind_styles(kind).0 % 0x10 == 9,
        kind == Kind::GroupBox ==> kind_styles(kind).0 % 0x10 == 7,
{
}

} // verus!
