//! What the window shows, and what its buttons do.

use vstd::prelude::*;

use crate::logic::{
    detect_mode, detect_mode_label, detected_index, detected_label, label_of, mode_label, MODE_MOVE,
};
use crate::session::same_text;
use crate::text::{decimal, decimal_text, holds, holds_at};
use crate::vault::{pending_in, read_pending, vault_exists, PendingOp};
use crate::walk::EntryKind;

verus! {

/// Password and mode kept in memory while a folder is temporarily unlocked, so that
/// it can be locked again without a prompt.
pub struct Stash {
    /// The password.
    pub pw: Vec<u8>,
    /// The index of the mode.
    pub mode: i32,
}

/// The window's state.
pub struct Window {
    /// The path of the folder.
    pub folder_path: String,
    /// Is the folder locked?
    pub locked: bool,
    /// Is an interrupted operation to be finished?
    pub resuming: bool,
    /// The label of the mode that the folder was locked in.
    pub detected_mode: String,
    /// The message.
    pub message: String,
    /// Is the message an error?
    pub is_error: bool,
    /// Is the folder temporarily unlocked?
    pub temp_unlocked: bool,
    /// Is an operation under way?
    pub busy: bool,
    /// What is under way.
    pub busy_label: String,
    /// How much of it is done, in percent.
    pub percent: i32,
    /// The first password field.
    pub pw1: String,
    /// The second password field.
    pub pw2: String,
    /// The credentials of a temporary unlock.
    pub stash: Option<Stash>,
}

/// The window's state as texts.
pub struct Pane {
    /// The path of the folder.
    pub folder_path: Seq<char>,
    /// Is the folder locked?
    pub locked: bool,
    /// Is an interrupted operation to be finished?
    pub resuming: bool,
    /// The label of the mode that the folder was locked in.
    pub detected_mode: Seq<char>,
    /// The message.
    pub message: Seq<char>,
    /// Is the message an error?
    pub is_error: bool,
    /// Is the folder temporarily unlocked?
    pub temp_unlocked: bool,
    /// Is an operation under way?
    pub busy: bool,
    /// What is under way.
    pub busy_label: Seq<char>,
    /// How much of it is done, in percent.
    pub percent: i32,
    /// The first password field.
    pub pw1: Seq<char>,
    /// The second password field.
    pub pw2: Seq<char>,
    /// The password and the mode of a temporary unlock.
    pub stash: Option<(Seq<u8>, i32)>,
}

impl View for Window {
    type V = Pane;

    open spec fn view(&self) -> Pane {
        Pane {
            folder_path: self.folder_path@,
            locked: self.locked,
            resuming: self.resuming,
            detected_mode: self.detected_mode@,
            message: self.message@,
            is_error: self.is_error,
            temp_unlocked: self.temp_unlocked,
            busy: self.busy,
            busy_label: self.busy_label@,
            percent: self.percent,
            pw1: self.pw1@,
            pw2: self.pw2@,
            stash: match self.stash {
                Some(c) => Some((c.pw@, c.mode)),
                None => None,
            },
        }
    }
}

// ── what changes together ──

/// The window with a message.
pub open spec fn telling(w: Pane, text: Seq<char>, is_error: bool) -> Pane {
    Pane { message: text, is_error, ..w }
}

/// The window with an operation that has just begun.
pub open spec fn begun(w: Pane, label: Seq<char>) -> Pane {
    Pane { busy: true, message: ""@, busy_label: label, percent: 0, ..w }
}

/// A count of files between two texts.
pub open spec fn counted(before: Seq<char>, n: nat, after: Seq<char>) -> Seq<char> {
    before + decimal(n) + after
}

fn count_message(before: &str, n: usize, after: &str) -> (s: String)
    ensures
        s@ == counted(before@, n as nat, after@),
{
    let mut s = String::from_str(before);
    s.append(decimal_text(n).as_str());
    s.append(after);
    s
}

// ── the start ──

/// The direction of an operation in words.
pub open spec fn direction(op: PendingOp) -> Seq<char> {
    match op {
        PendingOp::Encrypt => "加密"@,
        PendingOp::Decrypt => "解密"@,
    }
}

/// The message that the window starts with.
pub open spec fn greeting(pending: Option<PendingOp>, locked: bool) -> Seq<char> {
    match pending {
        Some(op) => "检测到上次"@ + direction(op) + "未完成，请输入密码以继续。"@,
        None => if locked {
            "请输入密码以解锁此文件夹。"@
        } else {
            "选择加密模式并设置密码即可锁定此文件夹。"@
        },
    }
}

/// The window for a folder: what is at the name of the vault, the content of the
/// journal and the first bytes of the vault, where they can be read.
pub open spec fn opening(
    folder_path: Seq<char>,
    at_vault: Option<EntryKind>,
    journal: Option<&[u8]>,
    head: Option<&[u8]>,
) -> Pane {
    let locked = at_vault == Some(EntryKind::File);
    let pending = pending_in(journal);
    Pane {
        folder_path,
        locked,
        resuming: pending is Some,
        detected_mode: if pending is Some || locked {
            detected_label(head)
        } else {
            ""@
        },
        message: greeting(pending, locked),
        is_error: false,
        temp_unlocked: false,
        busy: false,
        busy_label: ""@,
        percent: 0,
        pw1: ""@,
        pw2: ""@,
        stash: None,
    }
}

// ── what the buttons do ──

/// What is to be done in the background. `S` is the type of passwords entered, `B`
/// that of passwords kept.
pub enum Work<S, B> {
    /// Lock the folder.
    Encrypt {
        /// The index of the mode.
        mode: i32,
        /// The password.
        password: S,
    },
    /// Unlock the folder.
    Decrypt {
        /// The password.
        password: S,
    },
    /// Unlock the folder and keep the password.
    TempDecrypt {
        /// The password.
        password: S,
    },
    /// Lock the folder again with what was kept.
    ReEncrypt {
        /// The index of the mode.
        mode: i32,
        /// The password.
        kept: B,
    },
    /// Finish an interrupted operation.
    Resume {
        /// The password.
        password: S,
    },
}

/// Work as texts.
pub open spec fn work_view(w: Option<Work<String, Vec<u8>>>) -> Option<Work<Seq<char>, Seq<u8>>> {
    match w {
        None => None,
        Some(Work::Encrypt { mode, password }) => Some(Work::Encrypt { mode, password: password@ }),
        Some(Work::Decrypt { password }) => Some(Work::Decrypt { password: password@ }),
        Some(Work::TempDecrypt { password }) => Some(Work::TempDecrypt { password: password@ }),
        Some(Work::ReEncrypt { mode, kept }) => Some(Work::ReEncrypt { mode, kept: kept@ }),
        Some(Work::Resume { password }) => Some(Work::Resume { password: password@ }),
    }
}

/// What a button does: the window after it, and the work to do.
pub type Pressed = (Pane, Option<Work<Seq<char>, Seq<u8>>>);

/// Pressing the button that locks.
pub open spec fn pressed_encrypt(w: Pane, mode: i32, pw1: Seq<char>, pw2: Seq<char>) -> Pressed {
    if pw1.len() == 0 {
        (telling(w, "密码不能为空。"@, true), None)
    } else if pw1 != pw2 {
        (telling(w, "两次输入的密码不一致。"@, true), None)
    } else {
        (begun(w, "正在加密…"@), Some(Work::Encrypt { mode, password: pw1 }))
    }
}

/// Pressing the button that unlocks.
pub open spec fn pressed_decrypt(w: Pane, pw: Seq<char>) -> Pressed {
    if pw.len() == 0 {
        (telling(w, "请输入密码。"@, true), None)
    } else {
        (begun(w, "正在解密…"@), Some(Work::Decrypt { password: pw }))
    }
}

/// Pressing the button that unlocks for a while.
pub open spec fn pressed_temp_decrypt(w: Pane, pw: Seq<char>) -> Pressed {
    if pw.len() == 0 {
        (telling(w, "请输入密码。"@, true), None)
    } else {
        (begun(w, "正在解密…"@), Some(Work::TempDecrypt { password: pw }))
    }
}

/// Pressing the button that locks again.
pub open spec fn pressed_re_encrypt(w: Pane) -> Pressed {
    match w.stash {
        None => (telling(w, "凭据已失效，请重新输入密码解锁。"@, true), None),
        Some((pw, mode)) => (
            begun(w, "正在加密…"@),
            Some(Work::ReEncrypt { mode, kept: pw }),
        ),
    }
}

/// Pressing the button that goes on.
pub open spec fn pressed_resume(w: Pane, pw: Seq<char>) -> Pressed {
    if pw.len() == 0 {
        (telling(w, "请输入密码。"@, true), None)
    } else {
        (begun(w, "正在继续…"@), Some(Work::Resume { password: pw }))
    }
}

// ── what comes of it ──

/// The window after the work has ended.
pub open spec fn rested(w: Pane) -> Pane {
    Pane { busy: false, ..w }
}

/// The window after locking.
pub open spec fn after_encrypt(w: Pane, mode: i32, result: Result<usize, Seq<char>>) -> Pane {
    let w = Pane { pw1: ""@, pw2: ""@, ..rested(w) };
    match result {
        Ok(n) => telling(
            Pane { locked: true, detected_mode: label_of(mode), ..w },
            counted("锁定完成，共处理 "@, n as nat, " 个文件。"@),
            false,
        ),
        Err(e) => telling(w, e, true),
    }
}

/// The window after unlocking.
pub open spec fn after_decrypt(w: Pane, result: Result<usize, Seq<char>>) -> Pane {
    match result {
        Ok(n) => telling(
            Pane { pw1: ""@, locked: false, ..rested(w) },
            counted("解锁完成，共恢复 "@, n as nat, " 个文件。"@),
            false,
        ),
        Err(e) => telling(rested(w), e, true),
    }
}

/// The window after unlocking for a while under a password and a mode.
pub open spec fn after_temp_decrypt(
    w: Pane,
    password: Seq<u8>,
    mode: i32,
    result: Result<usize, Seq<char>>,
) -> Pane {
    match result {
        Ok(n) => telling(
            Pane {
                stash: Some((password, mode)),
                pw1: ""@,
                locked: false,
                temp_unlocked: true,
                ..rested(w)
            },
            counted(
                "已临时解密，共恢复 "@,
                n as nat,
                " 个文件。使用完毕后点击“再次加密”即可重新锁定。"@,
            ),
            false,
        ),
        Err(e) => telling(rested(w), e, true),
    }
}

/// The window after locking again.
pub open spec fn after_re_encrypt(w: Pane, mode: i32, result: Result<usize, Seq<char>>) -> Pane {
    match result {
        Ok(n) => telling(
            Pane {
                stash: None,
                temp_unlocked: false,
                locked: true,
                detected_mode: label_of(mode),
                ..rested(w)
            },
            counted("已重新加密，共处理 "@, n as nat, " 个文件。"@),
            false,
        ),
        Err(e) => telling(rested(w), e, true),
    }
}

/// The window after an interrupted operation was finished.
pub open spec fn after_resume(w: Pane, result: Result<(PendingOp, usize), Seq<char>>) -> Pane {
    match result {
        Ok((op, n)) => {
            let w = Pane {
                pw1: ""@,
                resuming: false,
                locked: op == PendingOp::Encrypt,
                ..rested(w)
            };
            match op {
                PendingOp::Encrypt => telling(
                    w,
                    counted("已继续完成加密，共处理 "@, n as nat, " 个文件。"@),
                    false,
                ),
                PendingOp::Decrypt => telling(
                    w,
                    counted("已继续完成解密，共恢复 "@, n as nat, " 个文件。"@),
                    false,
                ),
            }
        },
        Err(e) => telling(rested(w), e, true),
    }
}

/// A result as a text.
pub open spec fn result_view<T>(r: Result<T, String>) -> Result<T, Seq<char>> {
    match r {
        Ok(n) => Ok(n),
        Err(e) => Err(e@),
    }
}

/// Overwrite a password with zeros.
pub fn wipe(pw: &mut Vec<u8>)
    ensures
        final(pw)@ == Seq::new(old(pw)@.len(), |i: int| 0u8),
{
    let mut i: usize = 0;
    while i < pw.len()
        invariant
            i <= pw.len(),
            pw@.len() == old(pw)@.len(),
            forall|j: int| 0 <= j < i ==> pw@[j] == 0,
        decreases pw.len() - i,
    {
        pw.set(i, 0);
        i = i + 1;
    }
    assert(pw@ =~= Seq::new(old(pw)@.len(), |i: int| 0u8));
}

impl Window {
    /// Open the window for a folder. `at_vault` is what is at the name of the vault,
    /// `journal` the content of the journal and `head` the first bytes of the vault,
    /// where they can be read.
    pub fn open(
        folder_path: String,
        at_vault: Option<EntryKind>,
        journal: Option<&[u8]>,
        head: Option<&[u8]>,
    ) -> (w: Window)
        ensures
            w@ == opening(folder_path@, at_vault, journal, head),
    {
        let locked = vault_exists(at_vault);
        let pending = read_pending(journal);
        let message = match pending {
            Some(op) => {
                let mut s = String::from_str("检测到上次");
                match op {
                    PendingOp::Encrypt => s.append("加密"),
                    PendingOp::Decrypt => s.append("解密"),
                }
                s.append("未完成，请输入密码以继续。");
                s
            },
            None => if locked {
                String::from_str("请输入密码以解锁此文件夹。")
            } else {
                String::from_str("选择加密模式并设置密码即可锁定此文件夹。")
            },
        };
        let detected_mode = if pending.is_some() || locked {
            detect_mode_label(head)
        } else {
            String::from_str("")
        };
        Window {
            folder_path,
            locked,
            resuming: pending.is_some(),
            detected_mode,
            message,
            is_error: false,
            temp_unlocked: false,
            busy: false,
            busy_label: String::from_str(""),
            percent: 0,
            pw1: String::from_str(""),
            pw2: String::from_str(""),
            stash: None,
        }
    }

    /// May the window be closed? Not while an operation is under way.
    pub fn may_close(&self) -> (r: bool)
        ensures
            r == !self@.busy,
    {
        !self.busy
    }

    fn tell(&mut self, text: String, is_error: bool)
        ensures
            final(self)@ == telling(old(self)@, text@, is_error),
    {
        self.message = text;
        self.is_error = is_error;
    }

    fn begin(&mut self, label: &str)
        ensures
            final(self)@ == begun(old(self)@, label@),
    {
        self.busy = true;
        self.message = String::from_str("");
        self.busy_label = String::from_str(label);
        self.percent = 0;
    }

    /// The button that locks.
    pub fn on_encrypt(&mut self, mode: i32, pw1: String, pw2: String) -> (work: Option<
        Work<String, Vec<u8>>,
    >)
        ensures
            (final(self)@, work_view(work)) == pressed_encrypt(old(self)@, mode, pw1@, pw2@),
    {
        if pw1.as_str().is_empty() {
            self.tell(String::from_str("密码不能为空。"), true);
            return None;
        }
        if !same_text(pw1.as_str(), pw2.as_str()) {
            self.tell(String::from_str("两次输入的密码不一致。"), true);
            return None;
        }
        self.begin("正在加密…");
        Some(Work::Encrypt { mode, password: pw1 })
    }

    /// The button that unlocks.
    pub fn on_decrypt(&mut self, pw: String) -> (work: Option<Work<String, Vec<u8>>>)
        ensures
            (final(self)@, work_view(work)) == pressed_decrypt(old(self)@, pw@),
    {
        if pw.as_str().is_empty() {
            self.tell(String::from_str("请输入密码。"), true);
            return None;
        }
        self.begin("正在解密…");
        Some(Work::Decrypt { password: pw })
    }

    /// The button that unlocks for a while.
    pub fn on_temp_decrypt(&mut self, pw: String) -> (work: Option<Work<String, Vec<u8>>>)
        ensures
            (final(self)@, work_view(work)) == pressed_temp_decrypt(old(self)@, pw@),
    {
        if pw.as_str().is_empty() {
            self.tell(String::from_str("请输入密码。"), true);
            return None;
        }
        self.begin("正在解密…");
        Some(Work::TempDecrypt { password: pw })
    }

    /// The button that locks again.
    pub fn on_re_encrypt(&mut self) -> (work: Option<Work<String, Vec<u8>>>)
        ensures
            (final(self)@, work_view(work)) == pressed_re_encrypt(old(self)@),
    {
        let creds = match &self.stash {
            None => None,
            Some(c) => Some((copy_bytes(&c.pw), c.mode)),
        };
        match creds {
            None => {
                self.tell(String::from_str("凭据已失效，请重新输入密码解锁。"), true);
                None
            },
            Some((kept, mode)) => {
                self.begin("正在加密…");
                Some(Work::ReEncrypt { mode, kept })
            },
        }
    }

    /// The button that goes on with an interrupted operation.
    pub fn on_resume(&mut self, pw: String) -> (work: Option<Work<String, Vec<u8>>>)
        ensures
            (final(self)@, work_view(work)) == pressed_resume(old(self)@, pw@),
    {
        if pw.as_str().is_empty() {
            self.tell(String::from_str("请输入密码。"), true);
            return None;
        }
        self.begin("正在继续…");
        Some(Work::Resume { password: pw })
    }

    /// Show how much is done, in percent.
    pub fn show_percent(&mut self, percent: i32)
        ensures
            final(self)@ == (Pane { percent, ..old(self)@ }),
    {
        self.percent = percent;
    }

    /// Locking has ended.
    pub fn encrypted(&mut self, mode: i32, result: Result<usize, String>)
        ensures
            final(self)@ == after_encrypt(old(self)@, mode, result_view(result)),
    {
        self.busy = false;
        self.pw1 = String::from_str("");
        self.pw2 = String::from_str("");
        match result {
            Ok(n) => {
                self.locked = true;
                self.detected_mode = String::from_str(mode_label(mode));
                self.tell(count_message("锁定完成，共处理 ", n, " 个文件。"), false);
            },
            Err(e) => self.tell(e, true),
        }
    }

    /// Unlocking has ended.
    pub fn decrypted(&mut self, result: Result<usize, String>)
        ensures
            final(self)@ == after_decrypt(old(self)@, result_view(result)),
    {
        self.busy = false;
        match result {
            Ok(n) => {
                self.pw1 = String::from_str("");
                self.locked = false;
                self.tell(count_message("解锁完成，共恢复 ", n, " 个文件。"), false);
            },
            Err(e) => self.tell(e, true),
        }
    }

    /// Unlocking for a while has ended. `password` was used, and `mode` is the index
    /// of the mode that the folder was locked in.
    pub fn temp_decrypted(&mut self, password: Vec<u8>, mode: i32, result: Result<usize, String>)
        ensures
            final(self)@ == after_temp_decrypt(old(self)@, password@, mode, result_view(result)),
    {
        self.busy = false;
        match result {
            Ok(n) => {
                self.stash = Some(Stash { pw: password, mode });
                self.pw1 = String::from_str("");
                self.locked = false;
                self.temp_unlocked = true;
                self.tell(
                    count_message(
                        "已临时解密，共恢复 ",
                        n,
                        " 个文件。使用完毕后点击“再次加密”即可重新锁定。",
                    ),
                    false,
                );
            },
            Err(e) => self.tell(e, true),
        }
    }

    /// Locking again has ended. The password is forgotten where it succeeded, and
    /// kept for another try where it failed.
    pub fn re_encrypted(&mut self, mode: i32, result: Result<usize, String>)
        ensures
            final(self)@ == after_re_encrypt(old(self)@, mode, result_view(result)),
    {
        self.busy = false;
        match result {
            Ok(n) => {
                match self.stash.take() {
                    Some(mut c) => wipe(&mut c.pw),
                    None => {},
                }
                self.temp_unlocked = false;
                self.locked = true;
                self.detected_mode = String::from_str(mode_label(mode));
                self.tell(count_message("已重新加密，共处理 ", n, " 个文件。"), false);
            },
            Err(e) => self.tell(e, true),
        }
    }

    /// An interrupted operation was finished, or not.
    pub fn resumed(&mut self, result: Result<(PendingOp, usize), String>)
        ensures
            final(self)@ == after_resume(old(self)@, result_view(result)),
    {
        self.busy = false;
        match result {
            Ok((op, n)) => {
                self.pw1 = String::from_str("");
                self.resuming = false;
                match op {
                    PendingOp::Encrypt => {
                        self.locked = true;
                        self.tell(count_message("已继续完成加密，共处理 ", n, " 个文件。"), false);
                    },
                    PendingOp::Decrypt => {
                        self.locked = false;
                        self.tell(count_message("已继续完成解密，共恢复 ", n, " 个文件。"), false);
                    },
                }
            },
            Err(e) => self.tell(e, true),
        }
    }
}

fn copy_bytes(v: &Vec<u8>) -> (c: Vec<u8>)
    ensures
        c@ == v@,
{
    let mut c: Vec<u8> = Vec::new();
    c.extend_from_slice(v.as_slice());
    c
}

/// The index of the mode to lock a folder in again after it was unlocked for a
/// while, from the first bytes of its vault.
pub fn mode_to_keep(head: Option<&[u8]>) -> (mode: i32)
    ensures
        mode == match detected_index(head) {
            Some(m) => m,
            None => MODE_MOVE,
        },
{
    match detect_mode(head) {
        Some(m) => m,
        None => MODE_MOVE,
    }
}

// ── progress ──

/// A progress in whole percent.
pub open spec fn percent_of(done: int, total: int) -> int {
    if total == 0 {
        0
    } else {
        done * 100 / total
    }
}

/// Passes a progress on where it differs from the last one in whole percent.
pub struct Throttle {
    /// The last percentage.
    pub last: usize,
}

impl Throttle {
    /// A throttle that has passed nothing on yet.
    pub fn new() -> (t: Throttle)
        ensures
            t.last == usize::MAX,
    {
        Throttle { last: usize::MAX }
    }

    /// The percentage to show for a progress, where it has changed.
    pub fn report(&mut self, done: usize, total: usize) -> (shown: Option<usize>)
        requires
            done * 100 <= usize::MAX,
        ensures
            final(self).last == percent_of(done as int, total as int),
            shown == if old(self).last == final(self).last {
                None
            } else {
                Some(final(self).last)
            },
    {
        let percent: usize = if total == 0 {
            0
        } else {
            done * 100 / total
        };
        let before: usize = self.last;
        self.last = percent;
        if before == percent {
            None
        } else {
            Some(percent)
        }
    }
}

// ── laws ──

/// After a temporary unlock the folder is locked again with the same password, in
/// the mode that it was locked in.
pub proof fn relocking_uses_what_was_kept(w: Pane, password: Seq<u8>, mode: i32, n: usize)
    ensures
        pressed_re_encrypt(after_temp_decrypt(w, password, mode, Ok(n))).1 == Some(
            Work::<Seq<char>, Seq<u8>>::ReEncrypt { mode, kept: password },
        ),
{
}

/// Once the folder was locked again the password is forgotten; after a failure it
/// is still there for another try.
pub proof fn password_is_kept_until_relocked(w: Pane, mode: i32, n: usize, e: Seq<char>)
    ensures
        after_re_encrypt(w, mode, Ok(n)).stash is None,
        pressed_re_encrypt(after_re_encrypt(w, mode, Ok(n))).1 is None,
        after_re_encrypt(w, mode, Err(e)).stash == w.stash,
{
}

/// The window is busy from the press of a button that starts work until the work
/// has ended, whatever came of it.
pub proof fn busy_while_working(
    w: Pane,
    mode: i32,
    pw1: Seq<char>,
    pw2: Seq<char>,
    kept: Seq<u8>,
    result: Result<usize, Seq<char>>,
    resumed: Result<(PendingOp, usize), Seq<char>>,
)
    ensures
        pressed_encrypt(w, mode, pw1, pw2).1 is Some ==> pressed_encrypt(w, mode, pw1, pw2).0.busy,
        pressed_decrypt(w, pw1).1 is Some ==> pressed_decrypt(w, pw1).0.busy,
        pressed_temp_decrypt(w, pw1).1 is Some ==> pressed_temp_decrypt(w, pw1).0.busy,
        pressed_re_encrypt(w).1 is Some ==> pressed_re_encrypt(w).0.busy,
        pressed_resume(w, pw1).1 is Some ==> pressed_resume(w, pw1).0.busy,
        !after_encrypt(w, mode, result).busy,
        !after_decrypt(w, result).busy,
        !after_temp_decrypt(w, kept, mode, result).busy,
        !after_re_encrypt(w, mode, result).busy,
        !after_resume(w, resumed).busy,
{
}

/// A progress within its total is at most one hundred percent, and all of it is one
/// hundred percent.
pub proof fn percent_is_within_bounds(done: int, total: int)
    requires
        0 <= done <= total,
        0 < total,
    ensures
        0 <= percent_of(done, total) <= 100,
        percent_of(total, total) == 100,
{
    assert(done * 100 / total <= 100 && done * 100 / total >= 0) by (nonlinear_arith)
        requires
            0 <= done <= total,
            0 < total,
    ;
    assert(total * 100 / total == 100) by (nonlinear_arith)
        requires
            0 < total,
    ;
}

// ── what the buttons do, in terms of what was entered ──

/// Is all of the window's knowledge of the folder as it was?
pub open spec fn same_folder(a: Pane, b: Pane) -> bool {
    &&& b.folder_path == a.folder_path
    &&& b.locked == a.locked
    &&& b.resuming == a.resuming
    &&& b.detected_mode == a.detected_mode
    &&& b.temp_unlocked == a.temp_unlocked
    &&& b.stash == a.stash
    &&& b.pw1 == a.pw1
    &&& b.pw2 == a.pw2
}

/// Does the window show an error and begin nothing?
pub open spec fn complains(a: Pane, b: Pane) -> bool {
    &&& same_folder(a, b)
    &&& b.is_error
    &&& b.message.len() > 0
    &&& b.busy == a.busy
    &&& b.busy_label == a.busy_label
    &&& b.percent == a.percent
}

/// Does the window begin an operation, and name it by this word?
pub open spec fn begins(a: Pane, b: Pane, word: Seq<char>) -> bool {
    &&& same_folder(a, b)
    &&& b.busy
    &&& b.percent == 0
    &&& b.message.len() == 0
    &&& holds(b.busy_label, word)
}

proof fn lemma_under_way()
    ensures
        holds("正在加密…"@, "加密"@),
        holds("正在解密…"@, "解密"@),
        holds("正在继续…"@, "继续"@),
{
    reveal_strlit("加密");
    reveal_strlit("解密");
    reveal_strlit("继续");
    reveal_strlit("正在加密…");
    reveal_strlit("正在解密…");
    reveal_strlit("正在继续…");
    assert("正在加密…"@.subrange(2, 4) =~= "加密"@);
    assert(holds_at("正在加密…"@, "加密"@, 2));
    assert("正在解密…"@.subrange(2, 4) =~= "解密"@);
    assert(holds_at("正在解密…"@, "解密"@, 2));
    assert("正在继续…"@.subrange(2, 4) =~= "继续"@);
    assert(holds_at("正在继续…"@, "继续"@, 2));
}

/// The button that locks starts a lock in the chosen mode under the password that was
/// entered, if it was entered twice and is not empty, and otherwise nothing.
pub proof fn lock_button_locks(
    w: &mut Window,
    mode: i32,
    pw1: String,
    pw2: String,
    work: Option<Work<String, Vec<u8>>>,
)
    requires
        call_ensures(Window::on_encrypt, (w, mode, pw1, pw2), work),
    ensures
        pw1@.len() > 0 && pw1@ == pw2@ ==> begins(old(w)@, final(w)@, "加密"@) && (
        work matches Some(Work::Encrypt { mode: m, password }) && m == mode && password@ == pw1@),
        pw1@.len() == 0 || pw1@ != pw2@ ==> complains(old(w)@, final(w)@) && work is None,
        pw1@.len() == 0 ==> holds(final(w)@.message, "不能为空"@),
        pw1@.len() > 0 && pw1@ != pw2@ ==> holds(final(w)@.message, "不一致"@),
{
    reveal_strlit("");
    reveal_strlit("密码不能为空。");
    reveal_strlit("两次输入的密码不一致。");
    reveal_strlit("不能为空");
    reveal_strlit("不一致");
    lemma_under_way();
    assert("密码不能为空。"@.subrange(2, 6) =~= "不能为空"@);
    assert(holds_at("密码不能为空。"@, "不能为空"@, 2));
    assert("两次输入的密码不一致。"@.subrange(7, 10) =~= "不一致"@);
    assert(holds_at("两次输入的密码不一致。"@, "不一致"@, 7));
}

/// The button that unlocks starts an unlock under the password that was entered, if it
/// is not empty, and otherwise nothing.
pub proof fn unlock_button_unlocks(w: &mut Window, pw: String, work: Option<Work<String, Vec<u8>>>)
    requires
        call_ensures(Window::on_decrypt, (w, pw), work),
    ensures
        pw@.len() > 0 ==> begins(old(w)@, final(w)@, "解密"@) && (work matches Some(
            Work::Decrypt { password },
        ) && password@ == pw@),
        pw@.len() == 0 ==> complains(old(w)@, final(w)@) && work is None,
{
    reveal_strlit("");
    reveal_strlit("请输入密码。");
    lemma_under_way();
}

/// The button that unlocks for a while starts such an unlock under the password that
/// was entered, if it is not empty, and otherwise nothing.
pub proof fn temporary_unlock_button_unlocks(
    w: &mut Window,
    pw: String,
    work: Option<Work<String, Vec<u8>>>,
)
    requires
        call_ensures(Window::on_temp_decrypt, (w, pw), work),
    ensures
        pw@.len() > 0 ==> begins(old(w)@, final(w)@, "解密"@) && (work matches Some(
            Work::TempDecrypt { password },
        ) && password@ == pw@),
        pw@.len() == 0 ==> complains(old(w)@, final(w)@) && work is None,
{
    reveal_strlit("");
    reveal_strlit("请输入密码。");
    lemma_under_way();
}

/// The button that goes on takes the interrupted operation up under the password that
/// was entered, if it is not empty, and otherwise does nothing.
pub proof fn resume_button_resumes(w: &mut Window, pw: String, work: Option<Work<String, Vec<u8>>>)
    requires
        call_ensures(Window::on_resume, (w, pw), work),
    ensures
        pw@.len() > 0 ==> begins(old(w)@, final(w)@, "继续"@) && (work matches Some(
            Work::Resume { password },
        ) && password@ == pw@),
        pw@.len() == 0 ==> complains(old(w)@, final(w)@) && work is None,
{
    reveal_strlit("");
    reveal_strlit("请输入密码。");
    lemma_under_way();
}

/// The button that locks again starts a lock with the password and in the mode that
/// were kept, if any were, and otherwise nothing.
pub proof fn relock_button_relocks(w: &mut Window, work: Option<Work<String, Vec<u8>>>)
    requires
        call_ensures(Window::on_re_encrypt, (w,), work),
    ensures
        old(w)@.stash matches Some(kept) ==> begins(old(w)@, final(w)@, "加密"@) && (work matches Some(
            Work::ReEncrypt { mode, kept: pw },
        ) && mode == kept.1 && pw@ == kept.0),
        old(w)@.stash is None ==> complains(old(w)@, final(w)@) && work is None,
{
    reveal_strlit("");
    reveal_strlit("凭据已失效，请重新输入密码解锁。");
    lemma_under_way();
}

// ── what comes of it ──

/// Does the window show the failure of an operation, with all else as it was but for
/// the password fields?
pub open spec fn shows_failure(a: Pane, b: Pane, message: Seq<char>) -> bool {
    &&& b == Pane {
        message,
        is_error: true,
        busy: false,
        pw1: b.pw1,
        pw2: b.pw2,
        ..a
    }
}

/// Does the window show the success of an operation on a number of files, which it says
/// were processed by a lock or restored by an unlock?
pub open spec fn shows_success(b: Pane, n: nat, word: Seq<char>) -> bool {
    &&& !b.busy
    &&& !b.is_error
    &&& holds(b.message, word + decimal(n))
}

proof fn lemma_counted(before: Seq<char>, n: nat, after: Seq<char>, word: Seq<char>)
    requires
        word.len() <= before.len(),
        before.skip(before.len() - word.len()) == word,
    ensures
        holds(counted(before, n, after), word + decimal(n)),
{
    let text = counted(before, n, after);
    let at = before.len() - word.len();
    let part = word + decimal(n);
    assert(before =~= before.take(at) + word);
    assert(text.subrange(at, at + part.len()) =~= part);
    assert(holds_at(text, part, at));
}

/// A folder shows as locked exactly once its lock succeeded; what was entered is
/// cleared either way.
pub proof fn lock_shows_its_result(w: &mut Window, mode: i32, result: Result<usize, String>)
    requires
        call_ensures(Window::encrypted, (w, mode, result), ()),
    ensures
        final(w)@.pw1.len() == 0,
        final(w)@.pw2.len() == 0,
        result matches Err(e) ==> shows_failure(old(w)@, final(w)@, e@),
        result matches Ok(n) ==> {
            &&& shows_success(final(w)@, n as nat, "共处理 "@)
            &&& final(w)@.locked
            &&& final(w)@.stash == old(w)@.stash
            &&& final(w)@.resuming == old(w)@.resuming
            &&& final(w)@.temp_unlocked == old(w)@.temp_unlocked
            &&& final(w)@.folder_path == old(w)@.folder_path
        },
{
    reveal_strlit("");
    if let Ok(n) = result {
        reveal_strlit("锁定完成，共处理 ");
        reveal_strlit("共处理 ");
        assert("锁定完成，共处理 "@.skip(5) =~= "共处理 "@);
        lemma_counted("锁定完成，共处理 "@, n as nat, " 个文件。"@, "共处理 "@);
    }
}

/// A folder shows as unlocked exactly once its unlock succeeded; after a failure the
/// window is as it was but for the message.
pub proof fn unlock_shows_its_result(w: &mut Window, result: Result<usize, String>)
    requires
        call_ensures(Window::decrypted, (w, result), ()),
    ensures
        result matches Err(e) ==> shows_failure(old(w)@, final(w)@, e@) && final(w)@.pw1 == old(
            w,
        )@.pw1,
        result matches Ok(n) ==> {
            &&& shows_success(final(w)@, n as nat, "共恢复 "@)
            &&& final(w)@.pw1.len() == 0
            &&& !final(w)@.locked
            &&& final(w)@.stash == old(w)@.stash
            &&& final(w)@.resuming == old(w)@.resuming
            &&& final(w)@.temp_unlocked == old(w)@.temp_unlocked
            &&& final(w)@.folder_path == old(w)@.folder_path
        },
{
    reveal_strlit("");
    if let Ok(n) = result {
        reveal_strlit("解锁完成，共恢复 ");
        reveal_strlit("共恢复 ");
        assert("解锁完成，共恢复 "@.skip(5) =~= "共恢复 "@);
        lemma_counted("解锁完成，共恢复 "@, n as nat, " 个文件。"@, "共恢复 "@);
    }
}

/// A folder shows as temporarily unlocked exactly once that unlock succeeded, and then
/// its password and its mode are kept; after a failure nothing is kept that was not.
pub proof fn temporary_unlock_shows_its_result(
    w: &mut Window,
    password: Vec<u8>,
    mode: i32,
    result: Result<usize, String>,
)
    requires
        call_ensures(Window::temp_decrypted, (w, password, mode, result), ()),
    ensures
        result matches Err(e) ==> shows_failure(old(w)@, final(w)@, e@) && final(w)@.pw1 == old(
            w,
        )@.pw1,
        result matches Ok(n) ==> {
            &&& shows_success(final(w)@, n as nat, "共恢复 "@)
            &&& final(w)@.pw1.len() == 0
            &&& !final(w)@.locked
            &&& final(w)@.temp_unlocked
            &&& final(w)@.stash == Some((password@, mode))
            &&& final(w)@.resuming == old(w)@.resuming
            &&& final(w)@.folder_path == old(w)@.folder_path
        },
{
    reveal_strlit("");
    if let Ok(n) = result {
        reveal_strlit("已临时解密，共恢复 ");
        reveal_strlit("共恢复 ");
        assert("已临时解密，共恢复 "@.skip(6) =~= "共恢复 "@);
        lemma_counted(
            "已临时解密，共恢复 "@,
            n as nat,
            " 个文件。使用完毕后点击“再次加密”即可重新锁定。"@,
            "共恢复 "@,
        );
    }
}

/// A folder shows as locked again exactly once that lock succeeded, and then what was
/// kept is forgotten; after a failure it is still there.
pub proof fn relock_shows_its_result(w: &mut Window, mode: i32, result: Result<usize, String>)
    requires
        call_ensures(Window::re_encrypted, (w, mode, result), ()),
    ensures
        result matches Err(e) ==> shows_failure(old(w)@, final(w)@, e@),
        result matches Ok(n) ==> {
            &&& shows_success(final(w)@, n as nat, "共处理 "@)
            &&& final(w)@.locked
            &&& !final(w)@.temp_unlocked
            &&& final(w)@.stash is None
            &&& final(w)@.resuming == old(w)@.resuming
            &&& final(w)@.folder_path == old(w)@.folder_path
        },
{
    if let Ok(n) = result {
        reveal_strlit("已重新加密，共处理 ");
        reveal_strlit("共处理 ");
        assert("已重新加密，共处理 "@.skip(6) =~= "共处理 "@);
        lemma_counted("已重新加密，共处理 "@, n as nat, " 个文件。"@, "共处理 "@);
    }
}

/// Once an interrupted operation was finished there is none to finish, and the folder
/// shows as locked if it was a lock and as unlocked if it was an unlock; after a
/// failure it is still to be finished.
pub proof fn resume_shows_its_result(w: &mut Window, result: Result<(PendingOp, usize), String>)
    requires
        call_ensures(Window::resumed, (w, result), ()),
    ensures
        result matches Err(e) ==> shows_failure(old(w)@, final(w)@, e@) && final(w)@.pw1 == old(
            w,
        )@.pw1,
        result matches Ok(t) ==> {
            &&& t.0 == PendingOp::Encrypt ==> shows_success(final(w)@, t.1 as nat, "共处理 "@)
            &&& t.0 == PendingOp::Decrypt ==> shows_success(final(w)@, t.1 as nat, "共恢复 "@)
            &&& final(w)@.pw1.len() == 0
            &&& !final(w)@.resuming
            &&& final(w)@.locked == (t.0 == PendingOp::Encrypt)
            &&& final(w)@.stash == old(w)@.stash
            &&& final(w)@.temp_unlocked == old(w)@.temp_unlocked
            &&& final(w)@.folder_path == old(w)@.folder_path
        },
{
    reveal_strlit("");
    if let Ok((op, n)) = result {
        reveal_strlit("已继续完成加密，共处理 ");
        reveal_strlit("共处理 ");
        assert("已继续完成加密，共处理 "@.skip(8) =~= "共处理 "@);
        reveal_strlit("已继续完成解密，共恢复 ");
        reveal_strlit("共恢复 ");
        assert("已继续完成解密，共恢复 "@.skip(8) =~= "共恢复 "@);
        lemma_counted("已继续完成加密，共处理 "@, n as nat, " 个文件。"@, "共处理 "@);
        lemma_counted("已继续完成解密，共恢复 "@, n as nat, " 个文件。"@, "共恢复 "@);
    }
}

// ── a window that is opened ──

/// Does a folder's journal record an operation: is there one that begins with `E` or
/// with `D`?
pub open spec fn records(journal: Option<&[u8]>, letter: char) -> bool {
    journal matches Some(c) && c@.len() > 0 && c@[0] as int == letter as int
}

/// A window opens on what is there: the folder is locked where a file has the name of
/// the vault, and an operation is to be finished where the journal records one, which
/// the message then names. Nothing is kept and nothing is under way.
#[verifier::rlimit(30)]
pub proof fn window_opens_on_what_is_there(
    folder_path: String,
    at_vault: Option<EntryKind>,
    journal: Option<&[u8]>,
    head: Option<&[u8]>,
    w: Window,
)
    requires
        call_ensures(Window::open, (folder_path, at_vault, journal, head), w),
    ensures
        w@.folder_path == folder_path@,
        w@.locked <==> at_vault == Some(EntryKind::File),
        w@.resuming <==> records(journal, 'E') || records(journal, 'D'),
        records(journal, 'E') ==> holds(w@.message, "加密"@) && !holds(w@.message, "解密"@),
        records(journal, 'D') ==> holds(w@.message, "解密"@) && !holds(w@.message, "加密"@),
        w@.message.len() > 0,
        !w@.is_error && !w@.busy && !w@.temp_unlocked,
        w@.percent == 0 && w@.stash is None,
        w@.pw1.len() == 0 && w@.pw2.len() == 0 && w@.busy_label.len() == 0,
        !w@.locked && !w@.resuming ==> w@.detected_mode.len() == 0,
        w@.locked || w@.resuming ==> w@.detected_mode == match head {
            Some(h) => if h@.len() < 17 || h@[16] > 3 {
                "未知"@
            } else if h@[16] == 1 {
                "简单加密"@
            } else if h@[16] == 2 {
                "极速锁定"@
            } else {
                "完全加密"@
            },
            None => "未知"@,
        },
{
    reveal_strlit("");
    reveal_strlit("加密");
    reveal_strlit("解密");
    reveal_strlit("检测到上次");
    reveal_strlit("未完成，请输入密码以继续。");
    reveal_strlit("请输入密码以解锁此文件夹。");
    reveal_strlit("选择加密模式并设置密码即可锁定此文件夹。");
    let m = w@.message;
    let lock = "加密"@;
    let unlock = "解密"@;
    if records(journal, 'E') {
        assert(m.subrange(5, 7) =~= lock);
        assert(holds_at(m, lock, 5));
        assert forall|i: int| !#[trigger] holds_at(m, unlock, i) by {
            if holds_at(m, unlock, i) {
                assert(m.subrange(i, i + 2)[0] == '解');
                assert(m[i] == '解');
            }
        }
    }
    if records(journal, 'D') {
        assert(m.subrange(5, 7) =~= unlock);
        assert(holds_at(m, unlock, 5));
        assert forall|i: int| !#[trigger] holds_at(m, lock, i) by {
            if holds_at(m, lock, i) {
                assert(m.subrange(i, i + 2)[0] == '加');
                assert(m[i] == '加');
            }
        }
    }
}

/// The mode byte of a vault that was locked under the first, the second or any other
/// index of the list of modes.
pub open spec fn byte_at(index: i32) -> u8 {
    if index == 0 {
        3
    } else if index == 1 {
        1
    } else {
        2
    }
}

/// A folder shows the same mode right after it was locked, after it was locked again,
/// and when its window is opened anew on the vault.
pub proof fn mode_is_shown_alike(
    w: &mut Window,
    u: &mut Window,
    index: i32,
    n: usize,
    folder_path: String,
    journal: Option<&[u8]>,
    head: &[u8],
    anew: Window,
)
    requires
        call_ensures(Window::encrypted, (w, index, Ok::<usize, String>(n)), ()),
        call_ensures(Window::re_encrypted, (u, index, Ok::<usize, String>(n)), ()),
        call_ensures(
            Window::open,
            (folder_path, Some(EntryKind::File), journal, Some(head)),
            anew,
        ),
        head@.len() >= 17,
        head@[16] == byte_at(index),
    ensures
        final(w)@.detected_mode == anew@.detected_mode,
        final(u)@.detected_mode == anew@.detected_mode,
        index == 0 ==> anew@.detected_mode == "完全加密"@,
        index == 1 ==> anew@.detected_mode == "简单加密"@,
        index != 0 && index != 1 ==> anew@.detected_mode == "极速锁定"@,
{
}

/// A folder that was unlocked for a while is locked again in the mode that it was
/// locked in: the index that is kept stands for the mode byte of its vault, and for
/// the move lock where there is no byte to be read or it is not known.
pub proof fn kept_mode_is_that_of_the_vault(head: Option<&[u8]>, index: i32)
    requires
        call_ensures(mode_to_keep, (head,), index),
    ensures
        0 <= index <= 2,
        head matches Some(h) ==> {
            &&& h@.len() >= 17 && 1 <= h@[16] <= 3 ==> byte_at(index) == h@[16]
            &&& h@.len() >= 17 && h@[16] == 0 ==> byte_at(index) == 3
            &&& h@.len() >= 17 && h@[16] > 3 ==> index == 2
            &&& h@.len() < 17 ==> index == 2
        },
        head is None ==> index == 2,
{
}

// ── progress, as it is shown ──

/// The percentage that is shown is the progress rounded down, and it is shown again
/// only when it has changed.
pub proof fn progress_is_shown_when_it_changes(
    t: &mut Throttle,
    done: usize,
    total: usize,
    shown: Option<usize>,
)
    requires
        done * 100 <= usize::MAX,
        call_ensures(Throttle::report, (t, done, total), shown),
    ensures
        total > 0 ==> final(t).last * total <= done * 100 < (final(t).last + 1) * total,
        total == 0 ==> final(t).last == 0,
        shown matches Some(p) ==> p == final(t).last && p != old(t).last,
        shown is None ==> final(t).last == old(t).last,
{
    if total > 0 {
        let p = final(t).last as int;
        let a = done as int;
        let b = total as int;
        assert(p * b <= a * 100 < (p + 1) * b) by (nonlinear_arith)
            requires
                p == a * 100 / b,
                b > 0,
        ;
    }
}

/// A password that is wiped keeps its length and holds nothing but zeros.
pub proof fn wiped_password_is_gone(pw: &mut Vec<u8>)
    requires
        call_ensures(wipe, (pw,), ()),
    ensures
        final(pw)@.len() == old(pw)@.len(),
        forall|i: int| 0 <= i < final(pw)@.len() ==> #[trigger] final(pw)@[i] == 0,
{
}

/// A window can be closed exactly where nothing is under way, and showing a percentage
/// changes nothing else.
pub proof fn window_closes_when_idle(w: &Window, may: bool, u: &mut Window, percent: i32)
    requires
        call_ensures(Window::may_close, (w,), may),
        call_ensures(Window::show_percent, (u, percent), ()),
    ensures
        may <==> !w@.busy,
        final(u)@.percent == percent,
        same_folder(old(u)@, final(u)@),
        final(u)@.busy == old(u)@.busy,
        final(u)@.message == old(u)@.message,
{
}

/// The first progress that is reported is shown.
pub proof fn first_progress_is_shown(
    fresh: Throttle,
    t: &mut Throttle,
    done: usize,
    total: usize,
    shown: Option<usize>,
)
    requires
        call_ensures(Throttle::new, (), fresh),
        *old(t) == fresh,
        done <= total,
        done * 100 <= usize::MAX,
        call_ensures(Throttle::report, (t, done, total), shown),
    ensures
        shown is Some,
{
    if total > 0 {
        percent_is_within_bounds(done as int, total as int);
    }
}

} // verus!
