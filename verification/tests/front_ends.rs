use folder_lock::cli;
use folder_lock::crypto;
use folder_lock::dialog::{
    answered_yes, build_mode_template, build_template, dialog_event, encrypt_mode_dialog,
    message_box_error, message_box_info, message_box_yesno, password_dialog, to_wide, DialogEvent,
    DialogMode, DialogResult, EncryptMode,
};
use folder_lock::job::Job;
use folder_lock::logic;
use folder_lock::session::{advance, ask, lock, lock_with_salt, run, unlock, Ask, Scene, Started, Turn};
use folder_lock::vault::{self, PendingOp};
use folder_lock::walk::{EntryKind, Listing};
use folder_lock::window::{mode_to_keep, wipe, Stash, Throttle, Window, Work};

fn s(text: &str) -> String {
    text.to_string()
}

fn listing() -> Listing {
    Listing { dirs: vec![s("d")], files: vec![s("d/f"), s("a")] }
}

fn message<T>(r: Result<T, String>) -> String {
    match r {
        Ok(_) => panic!("it did not fail"),
        Err(e) => e,
    }
}

// ── what the window does with a folder ──

#[test]
fn modes_have_labels() {
    assert_eq!(logic::mode_label(0), "完全加密");
    assert_eq!(logic::mode_label(1), "简单加密");
    assert_eq!(logic::mode_label(2), "极速锁定");
    assert_eq!(logic::mode_label(-1), "极速锁定");
    let head = |mode: u8| {
        let mut h = vec![0u8; 16];
        h.push(mode);
        h
    };
    for (mode, label, index) in [
        (0, "完全加密", 0),
        (1, "简单加密", 1),
        (2, "极速锁定", 2),
        (3, "完全加密", 0),
        (4, "未知", 2),
    ] {
        assert_eq!(logic::detect_mode_label(Some(&head(mode))), label);
        assert_eq!(logic::detect_mode(Some(&head(mode))), Some(index));
    }
    assert_eq!(logic::detect_mode_label(Some(&[0u8; 16])), "未知");
    assert_eq!(logic::detect_mode(Some(&[0u8; 16])), None);
    assert_eq!(logic::detect_mode_label(None), "未知");
    assert_eq!(logic::detect_mode(None), None);
}

#[test]
fn nothing_to_lock_is_refused() {
    let names = vec![s("folder_lock.exe"), s("desktop.ini")];
    let r = logic::encrypt(&names, Ok(listing()), 0, b"pw");
    assert_eq!(message(r), "当前文件夹没有可加密的文件。");
    let r = logic::encrypt(&vec![s("a")], Err(s("读取目录失败 x: y")), 0, b"pw");
    assert_eq!(message(r), "读取目录失败 x: y");
}

#[test]
fn unlocking_reports_what_could_not_be_read() {
    let mut head = vec![1u8; 16];
    assert_eq!(
        message(logic::decrypt(&head[..3], Ok(Vec::new()), b"pw")),
        "读取 salt 失败: failed to fill whole buffer"
    );
    assert_eq!(
        message(logic::decrypt(&head, Ok(Vec::new()), b"pw")),
        "读取 mode 失败: failed to fill whole buffer"
    );
    head.push(1);
    assert_eq!(message(logic::decrypt(&head, Err(s("no body")), b"pw")), "no body");
    let r = logic::resume(None, &head, Ok(Vec::new()), b"pw");
    assert_eq!(message(r), "没有检测到未完成的操作。");
    head[16] = 7;
    let r = logic::resume(Some(PendingOp::Encrypt), &head, Err(s("no body")), b"pw");
    assert_eq!(message(r), "未知的 vault 模式: 7");
}

#[test]
fn the_icon_points_at_the_program() {
    use_steps(&logic::set_folder_icon(Some("C:\\x\\folder_lock.exe")), &[
        "Attributes { target: Ini, flags: \"-s -h -r\" }",
        "WriteIni { content: \"[.ShellClassInfo]\\r\\nIconResource=C:\\\\x\\\\folder_lock.exe,0\\r\\nConfirmFileOp=0\\r\\n\" }",
        "Attributes { target: Ini, flags: \"+s +h\" }",
        "Attributes { target: Folder, flags: \"+r\" }",
        "NotifyShell",
    ]);
    use_steps(&logic::set_folder_icon(None), &[]);
    use_steps(&logic::clear_folder_icon(), &[
        "Attributes { target: Ini, flags: \"-s -h -r\" }",
        "RemoveIni",
        "Attributes { target: Folder, flags: \"-r\" }",
        "NotifyShell",
    ]);
}

fn use_steps(steps: &[logic::IconChange<String>], want: &[&str]) {
    let shown: Vec<String> = steps.iter().map(|c| format!("{:?}", c)).collect();
    assert_eq!(shown, want);
}

// ── the dialogue ──

fn step(scene: Scene<String>, turn: Turn<String>) -> Scene<String> {
    advance(scene, turn)
}

fn entered(password: &str, confirm: Option<&str>) -> Turn<String> {
    Turn::Entered { password: s(password), confirm: confirm.map(s) }
}

fn told(error: bool, text: &str) -> Scene<String> {
    Scene::Tell { error, text: s(text), end: Ok(()) }
}

#[test]
fn a_dialogue_starts_by_what_the_folder_is() {
    assert_eq!(run(false, None), Scene::Over(Err(s("程序必须在某个文件夹内运行。"))));
    assert_eq!(run(true, None), Scene::LookForContent);
    assert_eq!(run(true, Some(EntryKind::Dir)), Scene::LookForContent);
    assert_eq!(run(true, Some(EntryKind::File)), Scene::ReadSalt);
}

#[test]
fn locking_asks_for_mode_password_and_consent() {
    let scene = step(Scene::LookForContent, Turn::Content(true));
    assert_eq!(scene, Scene::ChooseMode);
    let scene = step(scene, Turn::Mode(Some(EncryptMode::Simple)));
    assert_eq!(scene, Scene::SetPassword { mode: EncryptMode::Simple });
    let scene = step(scene, entered("pw", Some("pw")));
    assert_eq!(scene, Scene::Confirm { mode: EncryptMode::Simple, password: s("pw") });
    let scene = step(scene, Turn::Yes(true));
    assert_eq!(scene, Scene::Lock { mode: EncryptMode::Simple, password: s("pw") });
    let scene = step(scene, Turn::Ended(Ok(12)));
    assert_eq!(scene, told(false, "简单加密完成。\n共加密 12 个文件。\n\n现在此文件夹已被锁定。"));
    assert_eq!(step(scene, Turn::Shown), Scene::Over(Ok(())));
}

#[test]
fn locking_can_be_called_off_or_refused() {
    let mode = EncryptMode::Full;
    let set = || Scene::SetPassword { mode };
    assert_eq!(
        step(Scene::LookForContent, Turn::Content(false)),
        told(false, "当前文件夹没有可加密的文件。")
    );
    assert_eq!(step(Scene::ChooseMode, Turn::Mode(None)), Scene::Over(Ok(())));
    assert_eq!(step(set(), Turn::Cancelled), Scene::Over(Ok(())));
    assert_eq!(step(set(), entered("", Some(""))), told(true, "密码不能为空。"));
    assert_eq!(
        step(set(), entered("pw", Some("PW"))),
        told(true, "两次输入的密码不一致，已取消。")
    );
    assert_eq!(step(set(), entered("pw", None)), told(true, "两次输入的密码不一致，已取消。"));
    let confirm = Scene::Confirm { mode, password: s("pw") };
    assert_eq!(step(confirm, Turn::Yes(false)), Scene::Over(Ok(())));
    let locking = || Scene::Lock { mode, password: s("pw") };
    assert_eq!(step(locking(), Turn::Ended(Ok(0))), told(false, "没有可加密的内容。"));
    assert_eq!(step(locking(), Turn::NoKey(s("no key"))), Scene::Over(Err(s("no key"))));
    let failed = step(locking(), Turn::Ended(Err(s("disk full"))));
    assert_eq!(
        failed,
        Scene::Tell { error: true, text: s("加密过程中出错:\ndisk full"), end: Err(s("disk full")) }
    );
    assert_eq!(step(failed, Turn::Shown), Scene::Over(Err(s("disk full"))));
}

#[test]
fn a_wrong_password_can_be_tried_again() {
    let scene = step(Scene::ReadSalt, Turn::Salt(Ok(())));
    assert_eq!(scene, Scene::AskPassword);
    let scene = step(scene, entered("wrong", None));
    assert_eq!(scene, Scene::Unlock { password: s("wrong") });
    let scene = step(scene, Turn::Ended(Err(s("解密失败：密码错误或数据已损坏"))));
    assert_eq!(scene, Scene::Retry);
    let scene = step(scene, Turn::Yes(true));
    assert_eq!(scene, Scene::AskPassword);
    let scene = step(scene, entered("right", None));
    let scene = step(scene, Turn::Ended(Ok(3)));
    assert_eq!(scene, told(false, "解密完成。\n共恢复 3 个文件。"));
    assert_eq!(step(Scene::Retry, Turn::Yes(false)), Scene::Over(Ok(())));
    assert_eq!(step(Scene::AskPassword, Turn::Cancelled), Scene::Over(Ok(())));
    assert_eq!(step(Scene::ReadSalt, Turn::Salt(Err(s("bad")))), Scene::Over(Err(s("bad"))));
    assert_eq!(
        step(Scene::Unlock { password: s("p") }, Turn::Ended(Err(s("disk full")))),
        Scene::Tell { error: true, text: s("解密过程中出错:\ndisk full"), end: Err(s("disk full")) }
    );
    assert_eq!(
        step(Scene::Unlock { password: s("p") }, Turn::NoKey(s("no key"))),
        Scene::Over(Err(s("no key")))
    );
}

#[test]
fn a_turn_out_of_place_changes_nothing() {
    assert_eq!(step(Scene::ChooseMode, Turn::Yes(true)), Scene::ChooseMode);
    assert_eq!(step(Scene::Over(Ok(())), Turn::Shown), Scene::Over(Ok(())));
}

#[test]
fn scenes_ask_for_what_they_need() {
    assert_eq!(ask(&Scene::LookForContent), Ask::Content);
    assert_eq!(ask(&Scene::ChooseMode), Ask::Mode);
    assert_eq!(ask(&Scene::ReadSalt), Ask::Salt);
    assert_eq!(ask(&Scene::Over(Ok(()))), Ask::Nothing);
    assert_eq!(
        ask(&Scene::SetPassword { mode: EncryptMode::Full }),
        Ask::Password {
            mode: DialogMode::SetPassword,
            title: s("加密文件夹"),
            label: s("请设置密码（请牢记）：")
        }
    );
    assert_eq!(
        ask(&Scene::AskPassword),
        Ask::Password {
            mode: DialogMode::AskPassword,
            title: s("解密文件夹"),
            label: s("请输入密码以解密：")
        }
    );
    assert_eq!(ask(&Scene::Lock { mode: EncryptMode::Full, password: s("p") }), Ask::Lock);
    assert_eq!(ask(&Scene::Unlock { password: s("p") }), Ask::Unlock);
    assert_eq!(
        ask(&Scene::Retry),
        Ask::Box(message_box_yesno("密码错误，是否重新输入？", "解密失败"))
    );
    assert_eq!(ask(&told(true, "x")), Ask::Box(message_box_error("x")));
    assert_eq!(ask(&told(false, "x")), Ask::Box(message_box_info("x")));
    assert_eq!(
        ask(&Scene::Confirm { mode: EncryptMode::Full, password: s("p") }),
        Ask::Box(message_box_yesno(
            "即将使用「完全加密」加密当前文件夹下的所有文件和子文件夹。\n\n原始文件将被删除，仅保留此程序和加密数据。\n请务必牢记密码，丢失密码将无法恢复！\n\n是否继续？",
            "确认加密"
        ))
    );
    assert_eq!(
        ask(&Scene::Confirm { mode: EncryptMode::Simple, password: s("p") }),
        Ask::Box(message_box_yesno(
            "即将使用「简单加密」加密当前文件夹下的所有文件和子文件夹。\n\n注意：简单加密模式利用 NTFS ADS 隐藏文件，速度极快，\n但文件内容未加密，安全性低于完全加密模式。\n\n原始文件将被删除，仅保留此程序和加密数据。\n请务必牢记密码，丢失密码将无法恢复！\n\n是否继续？",
            "确认加密"
        ))
    );
}

fn started(s: Started) -> Result<Job, String> {
    match s {
        Started::NoKey(e) => Err(format!("no key: {}", e)),
        Started::Failed(e) => Err(e),
        Started::Going(job) => Ok(job),
    }
}

#[test]
fn an_operation_starts_under_the_derived_key() {
    let salt = [1u8; 16];
    let key = crypto::derive_key(b"pw", &salt).unwrap();
    let job = started(lock_with_salt(EncryptMode::Full, Ok(listing()), b"pw", &salt)).unwrap();
    assert_eq!(*job.key_ref(), key);
    assert!(job.outcome().is_none());
    assert_eq!(message(started(lock(EncryptMode::Full, Err(s("no listing")), b"pw"))), "no listing");
}

#[test]
fn an_unlock_starts_only_under_the_right_password() {
    let salt = [1u8; 16];
    let key = crypto::derive_key(b"pw", &salt).unwrap();
    let head = head(1);
    let mut body = head.clone();
    body.extend(crypto::encrypt(&key, b"FLOCKLIT\x01\x00\x00\x00\x00\x00").unwrap());
    assert!(started(unlock(&salt, &head, Ok(body.clone()), b"pw")).is_ok());
    assert_eq!(
        message(started(unlock(&salt, &head, Ok(body), b"other"))),
        "解密失败：密码错误或数据已损坏"
    );
}

#[test]
fn an_unlock_reports_what_could_not_be_read() {
    let salt = [1u8; 16];
    let head = head(1);
    assert_eq!(
        message(started(unlock(&salt, &head[..16], Ok(Vec::new()), b"pw"))),
        "读取 mode 失败: failed to fill whole buffer"
    );
    assert_eq!(message(started(unlock(&salt, &head, Err(s("no body")), b"pw"))), "no body");
}

// ── the command line ──

fn request(args: &[&str]) -> cli::Request<String> {
    cli::parse_args(&args.iter().map(|a| s(a)).collect())
}

#[test]
fn commands_are_parsed() {
    assert_eq!(request(&[]), cli::Request::Nothing);
    assert_eq!(request(&["flock_cli"]), cli::Request::Nothing);
    assert_eq!(request(&["x", "status"]), cli::Request::Run(cli::Command::Status, None));
    assert_eq!(
        request(&["x", "encrypt", "pw", "more"]),
        cli::Request::Run(cli::Command::Encrypt, Some(s("pw")))
    );
    assert_eq!(
        request(&["x", "encrypt-simple"]),
        cli::Request::Run(cli::Command::EncryptSimple, None)
    );
    assert_eq!(
        request(&["x", "decrypt", ""]),
        cli::Request::Run(cli::Command::Decrypt, Some(s("")))
    );
    assert_eq!(request(&["x", "Status"]), cli::Request::Unknown(s("Status")));
}

#[test]
fn the_status_tells_whether_the_folder_is_locked() {
    assert_eq!(cli::cmd_status(Some(EntryKind::File)), "locked (encrypted vault present)");
    assert_eq!(cli::cmd_status(Some(EntryKind::Dir)), "unlocked (no vault present)");
    assert_eq!(cli::cmd_status(None), "unlocked (no vault present)");
}

#[test]
fn a_command_without_its_password_fails() {
    let missing = "missing password argument";
    assert_eq!(message(cli::cmd_encrypt(None, Ok(listing()))), missing);
    assert_eq!(message(cli::cmd_encrypt_simple(None, Ok(listing()))), missing);
    assert_eq!(message(cli::cmd_decrypt(None, Err(s("x")), Err(s("y")))), missing);
    assert_eq!(message(cli::cmd_decrypt(Some("p"), Err(s("x")), Err(s("y")))), "x");
    assert_eq!(
        message(cli::cmd_decrypt(Some("p"), Ok(vec![0u8; 4]), Err(s("y")))),
        "读取 salt 失败: failed to fill whole buffer"
    );
}

#[test]
fn a_command_with_a_password_starts() {
    assert_eq!(message(cli::cmd_encrypt(Some("p"), Err(s("no listing")))), "no listing");
    assert!(cli::cmd_encrypt_simple(Some("p"), Ok(listing())).is_ok());
    assert_eq!(message(cli::cmd_decrypt(Some("p"), Ok(vec![0u8; 17]), Err(s("y")))), "y");
}

#[test]
fn the_program_says_how_it_ended() {
    assert_eq!(
        cli::usage(),
        "usage: flock_cli <status|encrypt <pw>|encrypt-simple <pw>|decrypt <pw>>"
    );
    assert_eq!(
        cli::done_message(cli::Command::Encrypt, 3),
        "encrypted 3 file(s) (full mode)"
    );
    assert_eq!(
        cli::done_message(cli::Command::EncryptSimple, 10),
        "encrypted 10 file(s) (simple ADS mode)"
    );
    assert_eq!(cli::done_message(cli::Command::Decrypt, 0), "decrypted 0 file(s)");
    assert_eq!(
        cli::refuse(Some("lock")),
        cli::Exit { out: None, err: Some(s("unknown command: lock")), usage: true, code: 2 }
    );
    assert_eq!(cli::refuse(None), cli::Exit { out: None, err: None, usage: true, code: 2 });
    assert_eq!(
        cli::conclude(Ok(s("fine"))),
        cli::Exit { out: Some(s("fine")), err: None, usage: false, code: 0 }
    );
    assert_eq!(
        cli::conclude(Err(s("bad"))),
        cli::Exit { out: None, err: Some(s("error: bad")), usage: false, code: 1 }
    );
}

// ── the window ──

fn window() -> Window {
    Window::open(s("C:\\x"), None, None, None)
}

fn head(mode: u8) -> Vec<u8> {
    let mut h = vec![0u8; 16];
    h.push(mode);
    h
}

#[test]
fn a_window_opens_by_what_the_folder_is() {
    let w = window();
    assert_eq!((w.folder_path.as_str(), w.locked, w.resuming), ("C:\\x", false, false));
    assert_eq!(w.message, "选择加密模式并设置密码即可锁定此文件夹。");
    assert!(!w.is_error && w.may_close() && w.stash.is_none());
    let w = Window::open(s("x"), Some(EntryKind::File), None, Some(&head(1)));
    assert_eq!((w.locked, w.detected_mode.as_str()), (true, "简单加密"));
    assert_eq!(w.message, "请输入密码以解锁此文件夹。");
    let w = Window::open(s("x"), Some(EntryKind::File), Some(b"E"), Some(&head(2)));
    assert_eq!((w.resuming, w.detected_mode.as_str()), (true, "极速锁定"));
    assert_eq!(w.message, "检测到上次加密未完成，请输入密码以继续。");
    let w = Window::open(s("x"), None, Some(b"D"), None);
    assert_eq!((w.locked, w.detected_mode.as_str()), (false, "未知"));
    assert_eq!(w.message, "检测到上次解密未完成，请输入密码以继续。");
}

#[test]
fn buttons_refuse_passwords_that_do_not_do() {
    let mut w = window();
    assert!(w.on_encrypt(0, s(""), s("")).is_none());
    assert_eq!((w.message.as_str(), w.is_error, w.busy), ("密码不能为空。", true, false));
    assert!(w.on_encrypt(0, s("a"), s("b")).is_none());
    assert_eq!((w.message.as_str(), w.is_error), ("两次输入的密码不一致。", true));
    assert!(w.on_decrypt(s("")).is_none());
    assert_eq!(w.message, "请输入密码。");
    w.message = s("");
    assert!(w.on_temp_decrypt(s("")).is_none());
    assert_eq!(w.message, "请输入密码。");
    w.message = s("");
    assert!(w.on_resume(s("")).is_none());
    assert_eq!(w.message, "请输入密码。");
    assert!(w.on_re_encrypt().is_none());
    assert_eq!(w.message, "凭据已失效，请重新输入密码解锁。");
}

#[test]
fn the_window_is_busy_while_it_locks() {
    let mut w = window();
    w.percent = 55;
    match w.on_encrypt(1, s("pw"), s("pw")) {
        Some(Work::Encrypt { mode: 1, password }) => assert_eq!(password, "pw"),
        _ => panic!("no work"),
    }
    assert!(w.busy && !w.may_close());
    assert_eq!((w.message.as_str(), w.busy_label.as_str(), w.percent), ("", "正在加密…", 0));
    w.show_percent(40);
    assert_eq!(w.percent, 40);
    w.pw1 = s("pw");
    w.pw2 = s("pw");
    w.encrypted(1, Ok(6));
    assert!(w.may_close() && w.locked && !w.is_error);
    assert_eq!((w.pw1.as_str(), w.pw2.as_str()), ("", ""));
    assert_eq!((w.message.as_str(), w.detected_mode.as_str()), ("锁定完成，共处理 6 个文件。", "简单加密"));
    let mut w = window();
    w.encrypted(0, Err(s("disk full")));
    assert_eq!((w.message.as_str(), w.is_error, w.locked), ("disk full", true, false));
}

#[test]
fn the_window_unlocks() {
    let mut w = Window::open(s("x"), Some(EntryKind::File), None, Some(&head(0)));
    assert!(matches!(w.on_decrypt(s("pw")), Some(Work::Decrypt { password }) if password == "pw"));
    assert_eq!(w.busy_label, "正在解密…");
    w.pw1 = s("pw");
    w.decrypted(Err(s("wrong")));
    assert_eq!((w.busy, w.locked, w.is_error, w.pw1.as_str()), (false, true, true, "pw"));
    w.decrypted(Ok(2));
    assert_eq!((w.locked, w.is_error, w.pw1.as_str()), (false, false, ""));
    assert_eq!(w.message, "解锁完成，共恢复 2 个文件。");
}

#[test]
fn a_temporary_unlock_keeps_the_password_until_it_is_locked_again() {
    let mut w = Window::open(s("x"), Some(EntryKind::File), None, Some(&head(3)));
    assert!(matches!(w.on_temp_decrypt(s("pw")), Some(Work::TempDecrypt { .. })));
    w.temp_decrypted(b"pw".to_vec(), mode_to_keep(Some(&head(3))), Err(s("wrong")));
    assert!(w.stash.is_none() && w.locked && !w.temp_unlocked);
    w.temp_decrypted(b"pw".to_vec(), mode_to_keep(Some(&head(3))), Ok(4));
    assert!(w.temp_unlocked && !w.locked);
    assert_eq!(
        w.message,
        "已临时解密，共恢复 4 个文件。使用完毕后点击“再次加密”即可重新锁定。"
    );
    match w.on_re_encrypt() {
        Some(Work::ReEncrypt { mode: 0, kept }) => assert_eq!(kept, b"pw"),
        _ => panic!("no work"),
    }
    assert_eq!(w.busy_label, "正在加密…");
    w.re_encrypted(0, Err(s("disk full")));
    assert!(w.stash.is_some() && w.is_error);
    w.re_encrypted(0, Ok(4));
    assert!(w.stash.is_none() && w.locked && !w.temp_unlocked);
    assert_eq!((w.message.as_str(), w.detected_mode.as_str()), ("已重新加密，共处理 4 个文件。", "完全加密"));
    assert!(w.on_re_encrypt().is_none());
    assert_eq!(mode_to_keep(None), logic::MODE_MOVE);
}

#[test]
fn the_window_finishes_what_was_interrupted() {
    let mut w = Window::open(s("x"), Some(EntryKind::File), Some(b"E"), Some(&head(1)));
    assert!(matches!(w.on_resume(s("pw")), Some(Work::Resume { .. })));
    assert_eq!(w.busy_label, "正在继续…");
    w.resumed(Err(s("wrong")));
    assert!(w.resuming && w.is_error);
    w.resumed(Ok((PendingOp::Encrypt, 5)));
    assert!(!w.resuming && w.locked && !w.is_error);
    assert_eq!(w.message, "已继续完成加密，共处理 5 个文件。");
    w.resumed(Ok((PendingOp::Decrypt, 5)));
    assert!(!w.locked);
    assert_eq!(w.message, "已继续完成解密，共恢复 5 个文件。");
}

#[test]
fn progress_is_passed_on_in_whole_percent() {
    let mut t = Throttle::new();
    assert_eq!(t.report(0, 300), Some(0));
    assert_eq!(t.report(1, 300), None);
    assert_eq!(t.report(3, 300), Some(1));
    assert_eq!(t.report(299, 300), Some(99));
    assert_eq!(t.report(300, 300), Some(100));
    assert_eq!(t.report(5, 0), Some(0));
    assert_eq!(t.report(6, 0), None);
}

#[test]
fn a_wiped_password_is_all_zeros() {
    let mut stash = Stash { pw: b"secret".to_vec(), mode: 0 };
    wipe(&mut stash.pw);
    assert_eq!(stash.pw, [0u8; 6]);
}

// ── native dialogs ──

#[test]
fn dialogs_give_what_was_entered() {
    assert_eq!(
        password_dialog(DialogMode::SetPassword, true, s("a"), s("b")),
        DialogResult::Accepted { password: s("a"), confirm: Some(s("b")) }
    );
    assert_eq!(
        password_dialog(DialogMode::AskPassword, true, s("a"), s("")),
        DialogResult::Accepted { password: s("a"), confirm: None }
    );
    assert_eq!(
        password_dialog(DialogMode::SetPassword, false, s("a"), s("b")),
        DialogResult::Cancel
    );
    assert_eq!(encrypt_mode_dialog(true, true), Some(EncryptMode::Simple));
    assert_eq!(encrypt_mode_dialog(true, false), Some(EncryptMode::Full));
    assert_eq!(encrypt_mode_dialog(false, true), None);
    assert!(answered_yes(6) && !answered_yes(7) && !answered_yes(0));
    let b = message_box_yesno("go on?", "title");
    assert_eq!((b.text.as_str(), b.caption.as_str(), b.flags), ("go on?", "title", 0x24));
    let b = message_box_error("bad");
    assert_eq!((b.caption.as_str(), b.flags), ("错误", 0x10));
    let b = message_box_info("good");
    assert_eq!((b.caption.as_str(), b.flags), ("Folder Lock", 0x40));
}

#[test]
fn dialog_messages_have_a_meaning() {
    assert_eq!(dialog_event(0x110, 0, true), DialogEvent::Init);
    assert_eq!(dialog_event(0x111, 1, true), DialogEvent::Accept);
    assert_eq!(dialog_event(0x111, 2, false), DialogEvent::Cancel);
    assert_eq!(dialog_event(0x111, 0x1_0001, true), DialogEvent::Ignore);
    assert_eq!(dialog_event(0x111, 104, true), DialogEvent::Ignore);
    assert_eq!(dialog_event(0x136, 0, true), DialogEvent::DialogColor);
    assert_eq!(dialog_event(0x138, 0, true), DialogEvent::StaticColor);
    assert_eq!(dialog_event(0x133, 0, true), DialogEvent::EditColor);
    assert_eq!(dialog_event(0x133, 0, false), DialogEvent::Ignore);
    assert_eq!(dialog_event(0x10, 0, true), DialogEvent::Ignore);
}

#[test]
fn wide_texts_are_utf_16_with_a_zero() {
    for text in ["", "abc", "密码", "a😀b"] {
        let mut want: Vec<u16> = text.encode_utf16().collect();
        want.push(0);
        assert_eq!(to_wide(text), want);
    }
}

fn wide(text: &str) -> Vec<u8> {
    to_wide(text).iter().flat_map(|u| u.to_le_bytes()).collect()
}

#[test]
fn templates_hold_title_font_and_controls() {
    let t = build_template(DialogMode::AskPassword, "解密文件夹");
    assert_eq!(t[..4], [0xC0, 0x08, 0x02, 0x10]);
    assert_eq!(t[8..10], [7, 0]);
    assert_eq!(t[14..18], [330u16.to_le_bytes()[0], 330u16.to_le_bytes()[1], 155, 0]);
    let title = wide("解密文件夹");
    assert_eq!(t[22..22 + title.len()], title[..]);
    let font = 22 + title.len();
    assert_eq!(t[font..font + 6], [10, 0, 144, 1, 0, 1]);
    assert_eq!(t[font + 6..font + 6 + 18], wide("Segoe UI")[..]);
    let set = build_template(DialogMode::SetPassword, "x");
    assert_eq!(set[8..10], [9, 0]);
    assert_eq!(set[16..18], [185, 0]);
    let mode = build_mode_template();
    assert_eq!(mode[8..10], [9, 0]);
    let needle = wide("简单加密");
    assert!(mode.windows(needle.len()).any(|w| w == needle));
    assert_eq!(vault::HEADER_LEN, 17);
}
