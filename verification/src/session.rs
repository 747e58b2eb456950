//! The course of a dialogue: lock a folder that has no vault, unlock one that has.

use vstd::prelude::*;

use crate::crypto::{
    derive_key, open_error, password_key, passwords_match, random_salt, seal_error, zero_key, Salt,
    PASSWORD_MAX,
};
use crate::dialog::{
    box_view, error_box, info_box, message_box_error, message_box_info, message_box_yesno,
    question_box, DialogMode, EncryptMode, MessageBox,
};
use crate::job::Job;
use crate::logic::password_too_long;
use crate::text::{contains_text, decimal, decimal_text, holds, holds_at};
use crate::vault::{
    decrypt_folder, encrypt_folder, encrypt_folder_simple, is_lock_job, manifest_fits, mode_of,
    open_manifest, read_vault_mode, unlock_starts, vault_exists, LockMode,
};
use crate::walk::{EntryKind, Listing};

verus! {

/// Where a dialogue stands. `S` is the type of texts.
#[derive(PartialEq, Eq, Debug)]
pub enum Scene<S> {
    /// Looking whether the folder holds anything to lock.
    LookForContent,
    /// Choosing a mode.
    ChooseMode,
    /// Setting a password.
    SetPassword {
        /// The mode.
        mode: EncryptMode,
    },
    /// Asking whether to go on.
    Confirm {
        /// The mode.
        mode: EncryptMode,
        /// The password.
        password: S,
    },
    /// Locking.
    Lock {
        /// The mode.
        mode: EncryptMode,
        /// The password.
        password: S,
    },
    /// Reading the salt of the vault.
    ReadSalt,
    /// Asking for the password.
    AskPassword,
    /// Unlocking.
    Unlock {
        /// The password.
        password: S,
    },
    /// Asking whether to try another password.
    Retry,
    /// Showing a message, after which the dialogue is over.
    Tell {
        /// Is it an error?
        error: bool,
        /// The message.
        text: S,
        /// What the dialogue ends with.
        end: Result<(), S>,
    },
    /// The dialogue is over.
    Over(Result<(), S>),
}

/// What came of a scene. `S` is the type of texts.
#[derive(PartialEq, Eq, Debug)]
pub enum Turn<S> {
    /// The folder holds something to lock, or not.
    Content(bool),
    /// The mode that was chosen, if one was.
    Mode(Option<EncryptMode>),
    /// A password was entered, with its confirmation where one was asked for.
    Entered {
        /// The password.
        password: S,
        /// The confirmation.
        confirm: Option<S>,
    },
    /// The password dialog was cancelled.
    Cancelled,
    /// A question was answered with yes, or not.
    Yes(bool),
    /// The salt was read.
    Salt(Result<(), S>),
    /// No key could be derived.
    NoKey(S),
    /// The operation has ended.
    Ended(Result<usize, S>),
    /// The message was shown.
    Shown,
}

/// A result as a text.
pub open spec fn end_view(r: Result<(), String>) -> Result<(), Seq<char>> {
    match r {
        Ok(()) => Ok(()),
        Err(e) => Err(e@),
    }
}

/// A scene as texts.
pub open spec fn scene_view(s: Scene<String>) -> Scene<Seq<char>> {
    match s {
        Scene::LookForContent => Scene::LookForContent,
        Scene::ChooseMode => Scene::ChooseMode,
        Scene::SetPassword { mode } => Scene::SetPassword { mode },
        Scene::Confirm { mode, password } => Scene::Confirm { mode, password: password@ },
        Scene::Lock { mode, password } => Scene::Lock { mode, password: password@ },
        Scene::ReadSalt => Scene::ReadSalt,
        Scene::AskPassword => Scene::AskPassword,
        Scene::Unlock { password } => Scene::Unlock { password: password@ },
        Scene::Retry => Scene::Retry,
        Scene::Tell { error, text, end } => Scene::Tell { error, text: text@, end: end_view(end) },
        Scene::Over(r) => Scene::Over(end_view(r)),
    }
}

/// A turn as texts.
pub open spec fn turn_view(t: Turn<String>) -> Turn<Seq<char>> {
    match t {
        Turn::Content(b) => Turn::Content(b),
        Turn::Mode(m) => Turn::Mode(m),
        Turn::Entered { password, confirm } => Turn::Entered {
            password: password@,
            confirm: match confirm {
                Some(c) => Some(c@),
                None => None,
            },
        },
        Turn::Cancelled => Turn::Cancelled,
        Turn::Yes(b) => Turn::Yes(b),
        Turn::Salt(r) => Turn::Salt(end_view(r)),
        Turn::NoKey(e) => Turn::NoKey(e@),
        Turn::Ended(Ok(n)) => Turn::Ended(Ok(n)),
        Turn::Ended(Err(e)) => Turn::Ended(Err(e@)),
        Turn::Shown => Turn::Shown,
    }
}

// ── what is said ──

/// The name of a mode.
pub open spec fn mode_name(mode: EncryptMode) -> Seq<char> {
    match mode {
        EncryptMode::Full => "完全加密"@,
        EncryptMode::Simple => "简单加密"@,
    }
}

/// What is said of a mode before the folder is locked in it.
pub open spec fn mode_warning(mode: EncryptMode) -> Seq<char> {
    match mode {
        EncryptMode::Full => ""@,
        EncryptMode::Simple => "\n\n注意：简单加密模式利用 NTFS ADS 隐藏文件，速度极快，\n但文件内容未加密，安全性低于完全加密模式。"@,
    }
}

/// The question before a folder is locked.
pub open spec fn confirm_text(mode: EncryptMode) -> Seq<char> {
    "即将使用「"@ + mode_name(mode) + "」加密当前文件夹下的所有文件和子文件夹。"@ + mode_warning(
        mode,
    ) + "\n\n原始文件将被删除，仅保留此程序和加密数据。\n请务必牢记密码，丢失密码将无法恢复！\n\n是否继续？"@
}

/// What is said once a folder was locked.
pub open spec fn locked_text(mode: EncryptMode, n: nat) -> Seq<char> {
    mode_name(mode) + "完成。\n共加密 "@ + decimal(n) + " 个文件。\n\n现在此文件夹已被锁定。"@
}

/// What is said once a folder was unlocked.
pub open spec fn unlocked_text(n: nat) -> Seq<char> {
    "解密完成。\n共恢复 "@ + decimal(n) + " 个文件。"@
}

/// Telling something, after which all is well.
pub open spec fn tell(error: bool, text: Seq<char>) -> Scene<Seq<char>> {
    Scene::Tell { error, text, end: Ok(()) }
}

/// The end of a dialogue that was called off.
pub open spec fn called_off() -> Scene<Seq<char>> {
    Scene::Over(Ok(()))
}

/// Does a failure look like a wrong password?
pub open spec fn looks_like_wrong_password(message: Seq<char>) -> bool {
    holds(message, "密码错误"@)
}

/// The scene after a turn. A turn that does not belong to the scene changes nothing.
pub open spec fn next_scene(scene: Scene<Seq<char>>, turn: Turn<Seq<char>>) -> Scene<Seq<char>> {
    match (scene, turn) {
        (Scene::LookForContent, Turn::Content(found)) => if found {
            Scene::ChooseMode
        } else {
            tell(false, "当前文件夹没有可加密的文件。"@)
        },
        (Scene::ChooseMode, Turn::Mode(chosen)) => match chosen {
            Some(mode) => Scene::SetPassword { mode },
            None => called_off(),
        },
        (Scene::SetPassword { mode }, Turn::Entered { password, confirm }) => {
            let again = match confirm {
                Some(c) => c,
                None => Seq::empty(),
            };
            if password.len() == 0 {
                tell(true, "密码不能为空。"@)
            } else if password != again {
                tell(true, "两次输入的密码不一致，已取消。"@)
            } else {
                Scene::Confirm { mode, password }
            }
        },
        (Scene::SetPassword { .. }, Turn::Cancelled) => called_off(),
        (Scene::Confirm { mode, password }, Turn::Yes(yes)) => if yes {
            Scene::Lock { mode, password }
        } else {
            called_off()
        },
        (Scene::Lock { .. }, Turn::NoKey(e)) => Scene::Over(Err(e)),
        (Scene::Lock { mode, .. }, Turn::Ended(result)) => match result {
            Ok(n) => if n == 0 {
                tell(false, "没有可加密的内容。"@)
            } else {
                tell(false, locked_text(mode, n as nat))
            },
            Err(e) => Scene::Tell { error: true, text: "加密过程中出错:\n"@ + e, end: Err(e) },
        },
        (Scene::ReadSalt, Turn::Salt(read)) => match read {
            Ok(()) => Scene::AskPassword,
            Err(e) => Scene::Over(Err(e)),
        },
        (Scene::AskPassword, Turn::Entered { password, .. }) => Scene::Unlock { password },
        (Scene::AskPassword, Turn::Cancelled) => called_off(),
        (Scene::Unlock { .. }, Turn::NoKey(e)) => Scene::Over(Err(e)),
        (Scene::Unlock { .. }, Turn::Ended(result)) => match result {
            Ok(n) => tell(false, unlocked_text(n as nat)),
            Err(e) => if looks_like_wrong_password(e) {
                Scene::Retry
            } else {
                Scene::Tell { error: true, text: "解密过程中出错:\n"@ + e, end: Err(e) }
            },
        },
        (Scene::Retry, Turn::Yes(yes)) => if yes {
            Scene::AskPassword
        } else {
            called_off()
        },
        (Scene::Tell { end, .. }, Turn::Shown) => Scene::Over(end),
        _ => scene,
    }
}

/// Begin a dialogue: with an unlock where the folder has a vault, with a lock where
/// it has none.
pub fn run(is_folder: bool, at_vault: Option<EntryKind>) -> (scene: Scene<String>)
    ensures
        scene_view(scene) == if !is_folder {
            Scene::Over(Err("程序必须在某个文件夹内运行。"@))
        } else if at_vault == Some(EntryKind::File) {
            Scene::ReadSalt
        } else {
            Scene::LookForContent
        },
{
    if !is_folder {
        Scene::Over(Err(String::from_str("程序必须在某个文件夹内运行。")))
    } else if vault_exists(at_vault) {
        Scene::ReadSalt
    } else {
        Scene::LookForContent
    }
}

fn say(error: bool, text: &str) -> (scene: Scene<String>)
    ensures
        scene_view(scene) == tell(error, text@),
{
    Scene::Tell { error, text: String::from_str(text), end: Ok(()) }
}

fn mode_name_text(mode: EncryptMode) -> (s: &'static str)
    ensures
        s@ == mode_name(mode),
{
    match mode {
        EncryptMode::Full => "完全加密",
        EncryptMode::Simple => "简单加密",
    }
}

fn locked_message(mode: EncryptMode, n: usize) -> (s: String)
    ensures
        s@ == locked_text(mode, n as nat),
{
    let mut s = String::from_str(mode_name_text(mode));
    s.append("完成。\n共加密 ");
    s.append(decimal_text(n).as_str());
    s.append(" 个文件。\n\n现在此文件夹已被锁定。");
    s
}

fn unlocked_message(n: usize) -> (s: String)
    ensures
        s@ == unlocked_text(n as nat),
{
    let mut s = String::from_str("解密完成。\n共恢复 ");
    s.append(decimal_text(n).as_str());
    s.append(" 个文件。");
    s
}

/// Are two texts the same? The time taken depends on their lengths alone.
pub(crate) fn same_text(a: &str, b: &str) -> (r: bool)
    ensures
        r == (a@ == b@),
{
    let r = passwords_match(a.as_bytes(), b.as_bytes());
    proof {
        vstd::utf8::encode_utf8_decode_utf8(a@);
        vstd::utf8::encode_utf8_decode_utf8(b@);
    }
    r
}

fn password_set(mode: EncryptMode, password: String, confirm: Option<String>) -> (scene: Scene<
    String,
>)
    ensures
        scene_view(scene) == next_scene(
            Scene::SetPassword { mode },
            Turn::Entered {
                password: password@,
                confirm: match confirm {
                    Some(c) => Some(c@),
                    None => None,
                },
            },
        ),
{
    let again = match confirm {
        Some(c) => c,
        None => String::new(),
    };
    if password.as_str().is_empty() {
        say(true, "密码不能为空。")
    } else if !same_text(password.as_str(), again.as_str()) {
        say(true, "两次输入的密码不一致，已取消。")
    } else {
        Scene::Confirm { mode, password }
    }
}

/// The next scene of a dialogue.
pub fn advance(scene: Scene<String>, turn: Turn<String>) -> (next: Scene<String>)
    ensures
        scene_view(next) == next_scene(scene_view(scene), turn_view(turn)),
{
    match (scene, turn) {
        (Scene::LookForContent, Turn::Content(found)) => if found {
            Scene::ChooseMode
        } else {
            say(false, "当前文件夹没有可加密的文件。")
        },
        (Scene::ChooseMode, Turn::Mode(chosen)) => match chosen {
            Some(mode) => Scene::SetPassword { mode },
            None => Scene::Over(Ok(())),
        },
        (Scene::SetPassword { mode }, Turn::Entered { password, confirm }) => password_set(
            mode,
            password,
            confirm,
        ),
        (Scene::SetPassword { .. }, Turn::Cancelled) => Scene::Over(Ok(())),
        (Scene::Confirm { mode, password }, Turn::Yes(yes)) => if yes {
            Scene::Lock { mode, password }
        } else {
            Scene::Over(Ok(()))
        },
        (Scene::Lock { .. }, Turn::NoKey(e)) => Scene::Over(Err(e)),
        (Scene::Lock { mode, .. }, Turn::Ended(result)) => match result {
            Ok(n) => if n == 0 {
                say(false, "没有可加密的内容。")
            } else {
                say(false, locked_message(mode, n).as_str())
            },
            Err(e) => Scene::Tell {
                error: true,
                text: String::from_str("加密过程中出错:\n").concat(e.as_str()),
                end: Err(e),
            },
        },
        (Scene::ReadSalt, Turn::Salt(read)) => match read {
            Ok(()) => Scene::AskPassword,
            Err(e) => Scene::Over(Err(e)),
        },
        (Scene::AskPassword, Turn::Entered { password, .. }) => Scene::Unlock { password },
        (Scene::AskPassword, Turn::Cancelled) => Scene::Over(Ok(())),
        (Scene::Unlock { .. }, Turn::NoKey(e)) => Scene::Over(Err(e)),
        (Scene::Unlock { .. }, Turn::Ended(result)) => match result {
            Ok(n) => say(false, unlocked_message(n).as_str()),
            Err(e) => if contains_text(e.as_str(), "密码错误") {
                Scene::Retry
            } else {
                Scene::Tell {
                    error: true,
                    text: String::from_str("解密过程中出错:\n").concat(e.as_str()),
                    end: Err(e),
                }
            },
        },
        (Scene::Retry, Turn::Yes(yes)) => if yes {
            Scene::AskPassword
        } else {
            Scene::Over(Ok(()))
        },
        (Scene::Tell { end, .. }, Turn::Shown) => Scene::Over(end),
        (scene, _) => scene,
    }
}

// ── what a scene asks for ──

/// What a scene asks of the user or of the folder. `S` is the type of texts.
#[derive(PartialEq, Eq, Debug)]
pub enum Ask<S> {
    /// Look whether the folder holds anything to lock.
    Content,
    /// Show the mode dialog.
    Mode,
    /// Show a password dialog.
    Password {
        /// What it is for.
        mode: DialogMode,
        /// The title.
        title: S,
        /// The line under the title.
        label: S,
    },
    /// Show a message box; a question is answered with yes or no.
    Box(MessageBox<S>),
    /// Read the salt of the vault.
    Salt,
    /// Lock the folder.
    Lock,
    /// Unlock the folder.
    Unlock,
    /// Nothing: the dialogue is over.
    Nothing,
}

/// What is asked for, as texts.
pub open spec fn ask_view(a: Ask<String>) -> Ask<Seq<char>> {
    match a {
        Ask::Content => Ask::Content,
        Ask::Mode => Ask::Mode,
        Ask::Password { mode, title, label } => Ask::Password { mode, title: title@, label: label@ },
        Ask::Box(b) => Ask::Box(box_view(b)),
        Ask::Salt => Ask::Salt,
        Ask::Lock => Ask::Lock,
        Ask::Unlock => Ask::Unlock,
        Ask::Nothing => Ask::Nothing,
    }
}

/// What a scene asks for.
pub open spec fn asked(scene: Scene<Seq<char>>) -> Ask<Seq<char>> {
    match scene {
        Scene::LookForContent => Ask::Content,
        Scene::ChooseMode => Ask::Mode,
        Scene::SetPassword { .. } => Ask::Password {
            mode: DialogMode::SetPassword,
            title: "加密文件夹"@,
            label: "请设置密码（请牢记）："@,
        },
        Scene::Confirm { mode, .. } => Ask::Box(question_box(confirm_text(mode), "确认加密"@)),
        Scene::Lock { .. } => Ask::Lock,
        Scene::ReadSalt => Ask::Salt,
        Scene::AskPassword => Ask::Password {
            mode: DialogMode::AskPassword,
            title: "解密文件夹"@,
            label: "请输入密码以解密："@,
        },
        Scene::Unlock { .. } => Ask::Unlock,
        Scene::Retry => Ask::Box(question_box("密码错误，是否重新输入？"@, "解密失败"@)),
        Scene::Tell { error, text, .. } => if error {
            Ask::Box(error_box(text))
        } else {
            Ask::Box(info_box(text))
        },
        Scene::Over(_) => Ask::Nothing,
    }
}

fn confirm_message(mode: EncryptMode) -> (s: String)
    ensures
        s@ == confirm_text(mode),
{
    let mut s = String::from_str("即将使用「");
    s.append(mode_name_text(mode));
    s.append("」加密当前文件夹下的所有文件和子文件夹。");
    match mode {
        EncryptMode::Full => s.append(""),
        EncryptMode::Simple => s.append(
            "\n\n注意：简单加密模式利用 NTFS ADS 隐藏文件，速度极快，\n但文件内容未加密，安全性低于完全加密模式。",
        ),
    }
    s.append(
        "\n\n原始文件将被删除，仅保留此程序和加密数据。\n请务必牢记密码，丢失密码将无法恢复！\n\n是否继续？",
    );
    s
}

/// What a scene asks of the user or of the folder.
pub fn ask(scene: &Scene<String>) -> (a: Ask<String>)
    ensures
        ask_view(a) == asked(scene_view(*scene)),
{
    match scene {
        Scene::LookForContent => Ask::Content,
        Scene::ChooseMode => Ask::Mode,
        Scene::SetPassword { .. } => Ask::Password {
            mode: DialogMode::SetPassword,
            title: String::from_str("加密文件夹"),
            label: String::from_str("请设置密码（请牢记）："),
        },
        Scene::Confirm { mode, .. } => Ask::Box(
            message_box_yesno(confirm_message(*mode).as_str(), "确认加密"),
        ),
        Scene::Lock { .. } => Ask::Lock,
        Scene::ReadSalt => Ask::Salt,
        Scene::AskPassword => Ask::Password {
            mode: DialogMode::AskPassword,
            title: String::from_str("解密文件夹"),
            label: String::from_str("请输入密码以解密："),
        },
        Scene::Unlock { .. } => Ask::Unlock,
        Scene::Retry => Ask::Box(message_box_yesno("密码错误，是否重新输入？", "解密失败")),
        Scene::Tell { error, text, .. } => if *error {
            Ask::Box(message_box_error(text.as_str()))
        } else {
            Ask::Box(message_box_info(text.as_str()))
        },
        Scene::Over(_) => Ask::Nothing,
    }
}

// ── locking and unlocking ──

/// What came of starting an operation.
pub enum Started {
    /// No key could be derived.
    NoKey(String),
    /// It failed before anything was done.
    Failed(String),
    /// It goes on.
    Going(Job),
}

/// How a folder is locked under a mode of the mode dialog.
pub open spec fn lock_mode(mode: EncryptMode) -> LockMode {
    match mode {
        EncryptMode::Full => LockMode::Full,
        EncryptMode::Simple => LockMode::Simple,
    }
}

/// Is this what locking under a password and a salt starts with?
pub open spec fn lock_started(
    mode: EncryptMode,
    listing: Result<Listing, String>,
    password: Seq<u8>,
    salt: Seq<u8>,
    s: Started,
) -> bool {
    if password.len() > PASSWORD_MAX {
        s matches Started::NoKey(e) && e@ == password_too_long()
    } else {
        match listing {
            Err(f) => s matches Started::Failed(e) && e@ == f@,
            Ok(l) => if manifest_fits(lock_mode(mode), l@) {
                s matches Started::Going(job) && is_lock_job(
                    lock_mode(mode),
                    password_key(password, salt),
                    salt,
                    l@,
                    false,
                    job,
                )
            } else {
                s matches Started::Failed(e) && e@ == seal_error()
            },
        }
    }
}

/// Start locking a folder under a password and a given salt. `listing` is what was
/// collected of the folder, or why that failed.
pub fn lock_with_salt(
    mode: EncryptMode,
    listing: Result<Listing, String>,
    password: &[u8],
    salt: &Salt,
) -> (s: Started)
    ensures
        lock_started(mode, listing, password@, salt@, s),
{
    let mut key = match derive_key(password, salt) {
        Ok(key) => key,
        Err(e) => {
            return Started::NoKey(e);
        },
    };
    let s = match listing {
        Err(e) => Started::Failed(e),
        Ok(l) => {
            let r = match mode {
                EncryptMode::Full => encrypt_folder(&l, &key, salt),
                EncryptMode::Simple => encrypt_folder_simple(&l, &key, salt),
            };
            match r {
                Ok(job) => Started::Going(job),
                Err(e) => Started::Failed(e),
            }
        },
    };
    zero_key(&mut key);
    s
}

/// Start locking a folder under a password and a fresh random salt.
pub fn lock(mode: EncryptMode, listing: Result<Listing, String>, password: &[u8]) -> (s: Started)
    ensures
        exists|salt: Seq<u8>|
            salt.len() == 16 && #[trigger] lock_started(mode, listing, password@, salt, s),
{
    let salt = random_salt();
    let s = lock_with_salt(mode, listing, password, &salt);
    assert(lock_started(mode, listing, password@, salt@, s));
    s
}

/// Is this what unlocking under a password and the salt of the vault starts with?
pub open spec fn unlock_started(
    salt: Seq<u8>,
    head: Seq<u8>,
    body: Result<Vec<u8>, String>,
    password: Seq<u8>,
    s: Started,
) -> bool {
    if password.len() > PASSWORD_MAX {
        s matches Started::NoKey(e) && e@ == password_too_long()
    } else {
        match mode_of(head) {
            Err(f) => s matches Started::Failed(e) && e@ == f,
            Ok(mode) => match body {
                Err(f) => s matches Started::Failed(e) && e@ == f@,
                Ok(bytes) => match s {
                    Started::NoKey(_) => false,
                    Started::Failed(e) => unlock_starts(
                        mode,
                        bytes@,
                        password_key(password, salt),
                        false,
                        Err(e),
                    ),
                    Started::Going(job) => unlock_starts(
                        mode,
                        bytes@,
                        password_key(password, salt),
                        false,
                        Ok(job),
                    ),
                },
            },
        }
    }
}

/// Start unlocking a folder. `head` is the first bytes of the vault, `body` what is
/// to be decrypted of it, or why that could not be read.
pub fn unlock(salt: &Salt, head: &[u8], body: Result<Vec<u8>, String>, password: &[u8]) -> (s:
    Started)
    ensures
        unlock_started(salt@, head@, body, password@, s),
{
    let mut key = match derive_key(password, salt) {
        Ok(key) => key,
        Err(e) => {
            return Started::NoKey(e);
        },
    };
    let s = match read_vault_mode(head) {
        Err(e) => Started::Failed(e),
        Ok(mode) => match body {
            Err(e) => Started::Failed(e),
            Ok(bytes) => match decrypt_folder(mode, bytes.as_slice(), &key) {
                Ok(job) => Started::Going(job),
                Err(e) => Started::Failed(e),
            },
        },
    };
    zero_key(&mut key);
    s
}

// ── laws ──

/// A vault that does not open under the key of the password leads to the question
/// whether to try again, and a yes to another password.
pub proof fn wrong_password_can_be_retried(password: Seq<char>)
    ensures
        next_scene(Scene::Unlock { password }, Turn::Ended(Err(open_error()))) == Scene::<
            Seq<char>,
        >::Retry,
        next_scene(Scene::<Seq<char>>::Retry, Turn::Yes(true)) == Scene::<Seq<char>>::AskPassword,
{
    reveal_strlit("解密失败：密码错误或数据已损坏");
    reveal_strlit("密码错误");
    let text = open_error();
    let part = "密码错误"@;
    assert(text.subrange(5, 9) =~= part);
    assert(holds_at(text, part, 5));
}

/// A folder is only locked under a password that is not empty, that was entered
/// twice in the same way, and after a yes to the question whether to go on.
pub proof fn locking_takes_two_entries_and_a_yes(scene: Scene<Seq<char>>, turn: Turn<Seq<char>>)
    ensures
        next_scene(scene, turn) is Lock && scene !is Lock ==> {
            &&& scene is Confirm
            &&& turn == Turn::<Seq<char>>::Yes(true)
            &&& next_scene(scene, turn)->Lock_password == scene->Confirm_password
        },
        next_scene(scene, turn) is Confirm && scene !is Confirm ==> {
            &&& scene is SetPassword
            &&& turn matches Turn::Entered { password, confirm }
            &&& password.len() > 0
            &&& confirm == Some(password)
            &&& next_scene(scene, turn)->Confirm_password == password
        },
{
    if scene is SetPassword && turn is Entered {
        let password = turn->password;
        if turn->confirm is None && password.len() > 0 {
            assert(password != Seq::<char>::empty());
        }
    }
}

/// Is this a scene on the way to a lock?
pub open spec fn on_the_way_to_lock<S>(scene: Scene<S>) -> bool {
    scene is LookForContent || scene is ChooseMode || scene is SetPassword || scene is Confirm
        || scene is Lock
}

/// Is this a scene on the way to an unlock?
pub open spec fn on_the_way_to_unlock<S>(scene: Scene<S>) -> bool {
    scene is ReadSalt || scene is AskPassword || scene is Unlock || scene is Retry
}

/// Is this a scene at the end of a dialogue?
pub open spec fn at_the_end<S>(scene: Scene<S>) -> bool {
    scene is Tell || scene is Over
}

/// A dialogue on a folder with a vault begins on the way to an unlock, one on a folder
/// without begins on the way to a lock, and outside of a folder there is none.
pub proof fn dialogue_begins_by_the_vault(
    is_folder: bool,
    at_vault: Option<EntryKind>,
    scene: Scene<String>,
)
    requires
        call_ensures(run, (is_folder, at_vault), scene),
    ensures
        is_folder && at_vault == Some(EntryKind::File) ==> scene is ReadSalt,
        is_folder && at_vault != Some(EntryKind::File) ==> scene is LookForContent,
        !is_folder ==> (scene matches Scene::Over(Err(e)) && e@.len() > 0),
{
    reveal_strlit("程序必须在某个文件夹内运行。");
}

/// A dialogue never turns from the way to a lock to the way to an unlock or back, and
/// once it has come to an end it stays there.
pub proof fn dialogue_keeps_to_its_way(
    scene: Scene<String>,
    turn: Turn<String>,
    next: Scene<String>,
)
    requires
        call_ensures(advance, (scene, turn), next),
    ensures
        on_the_way_to_lock(scene) ==> on_the_way_to_lock(next) || at_the_end(next),
        on_the_way_to_unlock(scene) ==> on_the_way_to_unlock(next) || at_the_end(next),
        at_the_end(scene) ==> at_the_end(next),
        scene is Over ==> scene_view(next) == scene_view(scene),
{
    assert(scene_view(next) == next_scene(scene_view(scene), turn_view(turn)));
}

/// Choosing a mode, entering a password twice and saying yes locks the folder in that
/// mode under that password.
pub proof fn choices_are_carried_to_the_lock(
    mode: EncryptMode,
    password: String,
    again: String,
    a: Scene<String>,
    b: Scene<String>,
    c: Scene<String>,
)
    requires
        call_ensures(
            advance,
            (Scene::<String>::ChooseMode, Turn::<String>::Mode(Some(mode))),
            a,
        ),
        call_ensures(advance, (a, Turn::Entered { password, confirm: Some(again) }), b),
        call_ensures(advance, (b, Turn::<String>::Yes(true)), c),
        password@.len() > 0,
        password@ == again@,
    ensures
        c matches Scene::Lock { mode: m, password: p } && m == mode && p@ == password@,
{
    assert(scene_view(a) == Scene::<Seq<char>>::SetPassword { mode });
    assert(scene_view(b) == Scene::Confirm { mode, password: password@ });
}

/// A password that is asked for is the one that the folder is unlocked under.
pub proof fn entered_password_unlocks(
    password: String,
    confirm: Option<String>,
    next: Scene<String>,
)
    requires
        call_ensures(
            advance,
            (Scene::<String>::AskPassword, Turn::Entered { password, confirm }),
            next,
        ),
    ensures
        next matches Scene::Unlock { password: p } && p@ == password@,
{
}

/// A password that is empty, or that was not entered twice in the same way, is told of
/// as an error, and nothing is locked.
pub proof fn bad_new_password_is_refused(
    mode: EncryptMode,
    password: String,
    confirm: Option<String>,
    next: Scene<String>,
)
    requires
        call_ensures(
            advance,
            (Scene::<String>::SetPassword { mode }, Turn::Entered { password, confirm }),
            next,
        ),
        password@.len() == 0 || !(confirm matches Some(c) && c@ == password@),
    ensures
        next matches Scene::Tell { error, text, end } && error && text@.len() > 0 && end is Ok,
{
    reveal_strlit("密码不能为空。");
    reveal_strlit("两次输入的密码不一致，已取消。");
    if confirm is None && password@.len() > 0 {
        assert(password@ != Seq::<char>::empty());
    }
}

/// Calling a dialogue off ends it at once, with nothing done and nothing told.
pub proof fn calling_off_ends_it(scene: Scene<String>, turn: Turn<String>, next: Scene<String>)
    requires
        call_ensures(advance, (scene, turn), next),
        ({
            ||| scene is ChooseMode && turn == Turn::<String>::Mode(None)
            ||| (scene is SetPassword || scene is AskPassword) && turn is Cancelled
            ||| (scene is Confirm || scene is Retry) && turn == Turn::<String>::Yes(false)
        }),
    ensures
        next matches Scene::Over(Ok(())),
{
    assert(scene_view(next) == next_scene(scene_view(scene), turn_view(turn)));
}

/// What there is to see leads on: content to the choice of a mode, a salt that was read
/// to the question for the password, a wrong password and a yes back to that question,
/// and a message that was shown to the end that it announced.
pub proof fn dialogue_goes_on(scene: Scene<String>, turn: Turn<String>, next: Scene<String>)
    requires
        call_ensures(advance, (scene, turn), next),
    ensures
        scene is LookForContent && turn == Turn::<String>::Content(true) ==> next is ChooseMode,
        scene is LookForContent && turn == Turn::<String>::Content(false) ==> (
        next matches Scene::Tell { error, end, .. } && !error && end is Ok),
        scene is ReadSalt && (turn matches Turn::Salt(Ok(()))) ==> next is AskPassword,
        scene is Retry && turn == Turn::<String>::Yes(true) ==> next is AskPassword,
        scene matches Scene::Tell { end, .. } ==> (turn is Shown ==> (next matches Scene::Over(r)
            && end_view(r) == end_view(end))),
{
    assert(scene_view(next) == next_scene(scene_view(scene), turn_view(turn)));
}

/// Does this turn belong to the scene?
pub open spec fn belongs<S>(scene: Scene<S>, turn: Turn<S>) -> bool {
    match turn {
        Turn::Content(_) => scene is LookForContent,
        Turn::Mode(_) => scene is ChooseMode,
        Turn::Entered { .. } => scene is SetPassword || scene is AskPassword,
        Turn::Cancelled => scene is SetPassword || scene is AskPassword,
        Turn::Yes(_) => scene is Confirm || scene is Retry,
        Turn::Salt(_) => scene is ReadSalt,
        Turn::NoKey(_) => scene is Lock || scene is Unlock,
        Turn::Ended(_) => scene is Lock || scene is Unlock,
        Turn::Shown => scene is Tell,
    }
}

/// A dialogue goes on with every turn that belongs to its scene, and stays where it is
/// with any other.
pub proof fn only_what_belongs_goes_on(
    scene: Scene<String>,
    turn: Turn<String>,
    next: Scene<String>,
)
    requires
        call_ensures(advance, (scene, turn), next),
    ensures
        !belongs(scene, turn) ==> scene_view(next) == scene_view(scene),
        belongs(scene, turn) ==> scene_view(next) != scene_view(scene),
{
    assert(scene_view(next) == next_scene(scene_view(scene), turn_view(turn)));
}

proof fn lemma_tail_holds(front: Seq<char>, tail: Seq<char>)
    ensures
        holds(front + tail, tail),
{
    let text = front + tail;
    let at = front.len() as int;
    assert(text.subrange(at, at + tail.len()) =~= tail);
    assert(holds_at(text, tail, at));
}

proof fn lemma_middle_holds(front: Seq<char>, middle: Seq<char>, tail: Seq<char>)
    ensures
        holds(front + middle + tail, middle),
{
    let text = front + middle + tail;
    let at = front.len() as int;
    assert(text.subrange(at, at + middle.len()) =~= middle);
    assert(holds_at(text, middle, at));
}

/// What came of an operation is told: a success as an information with the number of
/// files, a failure as an error with its message, which is also what the dialogue ends
/// with. A failed unlock that looks like a wrong password leads to another try
/// instead, and a missing key ends the dialogue with its message.
#[verifier::rlimit(30)]
pub proof fn result_is_told(scene: Scene<String>, turn: Turn<String>, next: Scene<String>)
    requires
        call_ensures(advance, (scene, turn), next),
        scene is Lock || scene is Unlock,
    ensures
        turn matches Turn::NoKey(e) ==> (next matches Scene::Over(Err(f)) && f@ == e@),
        turn matches Turn::Ended(Ok(n)) ==> (next matches Scene::Tell { error, text, end } && !error
            && end is Ok && (scene is Unlock || n > 0 ==> holds(text@, decimal(n as nat))) && (
        scene matches Scene::Lock { mode, .. } ==> (n > 0 ==> match mode {
            EncryptMode::Full => holds(text@, "完全加密"@),
            EncryptMode::Simple => holds(text@, "简单加密"@),
        }))),
        turn matches Turn::Ended(Err(e)) ==> {
            if scene is Unlock && holds(e@, "密码错误"@) {
                next is Retry
            } else {
                next matches Scene::Tell { error, text, end } && error && holds(text@, e@) && (
                end matches Err(f) && f@ == e@)
            }
        },
{
    assert(scene_view(next) == next_scene(scene_view(scene), turn_view(turn)));
    if let Turn::Ended(Ok(n)) = turn {
        if let Scene::Lock { mode, .. } = scene {
            lemma_middle_holds(
                mode_name(mode) + "完成。\n共加密 "@,
                decimal(n as nat),
                " 个文件。\n\n现在此文件夹已被锁定。"@,
            );
            let tail = "完成。\n共加密 "@ + decimal(n as nat) + " 个文件。\n\n现在此文件夹已被锁定。"@;
            lemma_middle_holds(Seq::empty(), mode_name(mode), tail);
            assert(Seq::<char>::empty() + mode_name(mode) + tail =~= locked_text(mode, n as nat));
        } else {
            lemma_middle_holds("解密完成。\n共恢复 "@, decimal(n as nat), " 个文件。"@);
        }
    }
    if let Turn::Ended(Err(e)) = turn {
        lemma_tail_holds("加密过程中出错:\n"@, e@);
        lemma_tail_holds("解密过程中出错:\n"@, e@);
    }
}

/// Every scene asks for what its turn brings: a password is set with a confirmation and
/// asked for without one, a question has the buttons yes and no, a message is shown as
/// it is, and only the scenes of locking and unlocking ask for a lock and an unlock.
#[verifier::rlimit(30)]
pub proof fn scenes_ask_for_their_turns(scene: &Scene<String>, a: Ask<String>)
    requires
        call_ensures(ask, (scene,), a),
    ensures
        *scene is LookForContent <==> a is Content,
        *scene is ChooseMode <==> a is Mode,
        *scene is ReadSalt <==> a is Salt,
        *scene is Lock <==> a is Lock,
        *scene is Unlock <==> a is Unlock,
        *scene is Over <==> a is Nothing,
        *scene is SetPassword ==> (a matches Ask::Password { mode, title, label } && mode
            == DialogMode::SetPassword && holds(title@, "加密"@) && holds(label@, "设置密码"@)),
        *scene is AskPassword ==> (a matches Ask::Password { mode, title, label } && mode
            == DialogMode::AskPassword && holds(title@, "解密"@) && holds(label@, "输入密码"@)),
        *scene is Confirm || *scene is Retry ==> (a matches Ask::Box(b) && b.flags == 0x24
            && b.text@.len() > 0),
        *scene matches Scene::Tell { error, text, .. } ==> (a matches Ask::Box(b) && b.text@
            == text@ && b.flags == if error {
            0x10u32
        } else {
            0x40u32
        }),
        *scene matches Scene::Confirm { mode, .. } ==> (a matches Ask::Box(b) && match mode {
            EncryptMode::Full => holds(b.text@, "完全加密"@),
            EncryptMode::Simple => holds(b.text@, "简单加密"@) && holds(
                b.text@,
                "文件内容未加密"@,
            ),
        }),
{
    assert(ask_view(a) == asked(scene_view(*scene)));
    reveal_strlit("密码错误，是否重新输入？");
    reveal_strlit("加密");
    reveal_strlit("解密");
    reveal_strlit("设置密码");
    reveal_strlit("输入密码");
    reveal_strlit("加密文件夹");
    reveal_strlit("解密文件夹");
    reveal_strlit("请设置密码（请牢记）：");
    reveal_strlit("请输入密码以解密：");
    assert("加密文件夹"@.subrange(0, 2) =~= "加密"@);
    assert(holds_at("加密文件夹"@, "加密"@, 0));
    assert("解密文件夹"@.subrange(0, 2) =~= "解密"@);
    assert(holds_at("解密文件夹"@, "解密"@, 0));
    assert("请设置密码（请牢记）："@.subrange(1, 5) =~= "设置密码"@);
    assert(holds_at("请设置密码（请牢记）："@, "设置密码"@, 1));
    assert("请输入密码以解密："@.subrange(1, 5) =~= "输入密码"@);
    assert(holds_at("请输入密码以解密："@, "输入密码"@, 1));
    if let Scene::Confirm { mode, .. } = *scene {
        let tail = "」加密当前文件夹下的所有文件和子文件夹。"@ + mode_warning(mode)
            + "\n\n原始文件将被删除，仅保留此程序和加密数据。\n请务必牢记密码，丢失密码将无法恢复！\n\n是否继续？"@;
        let text = confirm_text(mode);
        assert(text =~= "即将使用「"@ + mode_name(mode) + tail);
        lemma_middle_holds("即将使用「"@, mode_name(mode), tail);
        reveal_strlit("即将使用「");
        if mode == EncryptMode::Simple {
            let warning = mode_warning(mode);
            let part = "文件内容未加密"@;
            reveal_strlit(
                "\n\n注意：简单加密模式利用 NTFS ADS 隐藏文件，速度极快，\n但文件内容未加密，安全性低于完全加密模式。",
            );
            reveal_strlit("文件内容未加密");
            assert(warning.subrange(35, 42) =~= part);
            let before = "即将使用「"@ + mode_name(mode) + "」加密当前文件夹下的所有文件和子文件夹。"@;
            let at = before.len() as int + 35;
            assert(text.subrange(at, at + 7) =~= part);
            assert(holds_at(text, part, at));
        }
    }
}

// ── what stops an operation before it begins ──

/// A password that is too long gives no key, and a folder that could not be listed is
/// not locked: the message is passed on as it is.
pub proof fn lock_that_cannot_begin_fails(
    mode: EncryptMode,
    listing: Result<Listing, String>,
    password: &[u8],
    salt: &Salt,
    s: Started,
)
    requires
        call_ensures(lock_with_salt, (mode, listing, password, salt), s) || call_ensures(
            lock,
            (mode, listing, password),
            s,
        ),
    ensures
        password@.len() > 0xFFFF_FFFF <==> s is NoKey,
        password@.len() <= 0xFFFF_FFFF ==> (listing matches Err(e) ==> (s matches Started::Failed(
            f,
        ) && f@ == e@)),
{
}

/// A vault that could not be read, or that does not open under the key of the
/// password, is not unlocked: the message is passed on as it is.
pub proof fn unlock_that_cannot_begin_fails(
    salt: &Salt,
    head: &[u8],
    body: Result<Vec<u8>, String>,
    password: &[u8],
    s: Started,
)
    requires
        call_ensures(unlock, (salt, head, body, password), s),
    ensures
        password@.len() > 0xFFFF_FFFF <==> s is NoKey,
        password@.len() <= 0xFFFF_FFFF && head@.len() < 17 ==> s is Failed,
        password@.len() <= 0xFFFF_FFFF && head@.len() >= 17 ==> (body matches Err(e) ==> (
        s matches Started::Failed(f) && f@ == e@)),
        password@.len() <= 0xFFFF_FFFF && head@.len() >= 17 ==> (body matches Ok(bytes) ==> match open_manifest(
            head@[16],
            password_key(password@, salt@),
            bytes@,
        ) {
            Ok(_) => s is Going,
            Err(e) => s matches Started::Failed(f) && f@ == e,
        }),
{
}

} // verus!
