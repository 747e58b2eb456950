use folder_lock::crypto;
use folder_lock::fault::{cut_short_text, describe, Fault, Stage};
use folder_lock::job::{Action, Job, Part, Reply, Task};
use folder_lock::manifest::{
    manifest_file_count_full, parse_full, parse_manifest, serialize_manifest, Magic, Reading,
    SimpleEntry,
};
use folder_lock::path::{
    is_protected_name, is_safe_name, is_safe_path, rel_path, stored_name_text, TEMP_FILE,
};
use folder_lock::sort::sort_paths;
use folder_lock::text::{
    contains_text, decimal_text, get_le32, get_le56, get_le64, padded_text, push_le16, push_le32,
    put_le56,
};
use folder_lock::vault;
use folder_lock::walk::{has_packable_content, EntryKind, Listing, Walk, WalkStep};

fn strings(list: &[&str]) -> Vec<String> {
    list.iter().map(|s| s.to_string()).collect()
}

// ── names and paths ──

#[test]
fn own_files_and_programs_are_protected() {
    for name in [
        ".flockvault",
        ".FlockVault",
        ".flockvault.tmp",
        ".flockhost",
        ".flockdata",
        ".flockstate",
        "desktop.ini",
        "Desktop.INI",
        "folder_lock.exe",
        "OTHER.EXE",
        ".exe",
    ] {
        assert!(is_protected_name(name), "{}", name);
    }
    for name in ["", "notes.md", "exe", "a.exe.txt", "vault", ".flockvault2", "ｅ.ｅｘｅ"] {
        assert!(!is_protected_name(name), "{}", name);
    }
}

#[test]
fn paths_that_lead_out_are_unsafe() {
    for rel in ["a", "a/b.txt", "a/..b", "...", "目录/文件"] {
        assert_eq!(is_safe_path(rel), !rel.split('/').any(|c| c == ".."), "{}", rel);
    }
    for rel in ["..", "../a", "a/../b", "a/..", "/etc", "a\\b", "\\"] {
        assert!(!is_safe_path(rel), "{}", rel);
    }
}

#[test]
fn names_that_lead_out_are_unsafe() {
    for name in ["fl_000000", "a", "...", "a..b"] {
        assert!(is_safe_name(name), "{}", name);
    }
    for name in ["..", "a/b", "a\\b", "/"] {
        assert!(!is_safe_name(name), "{}", name);
    }
}

#[test]
fn stored_names_count_up() {
    assert_eq!(stored_name_text(0), "fl_000000");
    assert_eq!(stored_name_text(42), "fl_000042");
    assert_eq!(stored_name_text(999999), "fl_999999");
    assert_eq!(stored_name_text(1000000), "fl_1000000");
}

#[test]
fn the_temporary_file_is_never_packed() {
    assert_eq!(TEMP_FILE, ".flockvault.tmp");
    assert!(is_protected_name(TEMP_FILE));
    let mut walk = Walk::new();
    assert!(matches!(walk.step(), WalkStep::Open(_)));
    walk.opened();
    assert!(!walk.wants(TEMP_FILE) && walk.wants("a.txt"));
    walk.entry(TEMP_FILE, EntryKind::File);
    walk.entry("a.txt", EntryKind::File);
    walk.end();
    assert_eq!(walk.finish().files, strings(&["a.txt"]));
}

#[test]
fn a_relative_path_joins_a_directory_and_a_name() {
    assert_eq!(rel_path("", "a"), "a");
    assert_eq!(rel_path("a/b", "c.txt"), "a/b/c.txt");
}

#[test]
fn paths_are_sorted_component_by_component() {
    let sorted = sort_paths(&strings(&["b", "a.txt", "a/z", "a", "a/b/c", "a-b"]));
    assert_eq!(sorted, ["a", "a/b/c", "a/z", "a-b", "a.txt", "b"]);
    assert_eq!(sort_paths(&strings(&["é", "z", "Z"])), ["Z", "z", "é"]);
    assert_eq!(sort_paths(&strings(&["x", "x"])), ["x", "x"]);
    assert!(sort_paths(&Vec::new()).is_empty());
}

#[test]
fn a_walk_lists_what_is_packed() {
    let mut walk = Walk::new();
    assert!(matches!(walk.step(), WalkStep::Open(d) if d.is_empty()));
    walk.opened();
    assert!(matches!(walk.step(), WalkStep::Next));
    walk.entry("a.txt", EntryKind::File);
    walk.entry("tool.exe", EntryKind::File);
    walk.entry(".flockdata", EntryKind::Dir);
    walk.entry("socket", EntryKind::Other);
    walk.entry("sub", EntryKind::Dir);
    assert!(matches!(walk.step(), WalkStep::Open(d) if d == "sub"));
    walk.opened();
    walk.entry("b.txt", EntryKind::File);
    walk.end();
    assert!(matches!(walk.step(), WalkStep::Next));
    walk.end();
    assert!(matches!(walk.step(), WalkStep::Done));
    let found = walk.finish();
    assert_eq!(found.dirs, ["sub"]);
    assert_eq!(found.files, ["a.txt", "sub/b.txt"]);
}

#[test]
fn packable_content_is_anything_unprotected() {
    assert!(!has_packable_content(&strings(&[])));
    assert!(!has_packable_content(&strings(&["a.exe", "desktop.ini"])));
    assert!(has_packable_content(&strings(&["a.exe", "sub"])));
}

// ── numbers and texts ──

#[test]
fn numbers_are_written_in_decimal() {
    assert_eq!(decimal_text(0), "0");
    assert_eq!(decimal_text(9), "9");
    assert_eq!(decimal_text(10), "10");
    assert_eq!(decimal_text(usize::MAX), format!("{}", usize::MAX));
    assert_eq!(padded_text(7, 3), "007");
    assert_eq!(padded_text(1234, 3), "1234");
    assert_eq!(padded_text(0, 0), "0");
}

#[test]
fn a_text_contains_its_parts() {
    assert!(contains_text("解密失败：密码错误或数据已损坏", "密码错误"));
    assert!(contains_text("abc", ""));
    assert!(contains_text("abc", "abc"));
    assert!(!contains_text("abc", "ac"));
    assert!(!contains_text("ab", "abc"));
}

#[test]
fn integers_are_little_endian() {
    let mut buf = vec![0xEE];
    push_le16(&mut buf, 0x1234);
    push_le32(&mut buf, 0x89AB_CDEF);
    assert_eq!(buf, [0xEE, 0x34, 0x12, 0xEF, 0xCD, 0xAB, 0x89]);
    assert_eq!(get_le32(&buf, 3), 0x89AB_CDEF);
    assert_eq!(get_le64(&[0, 1, 2, 3, 4, 5, 6, 7, 8], 1), 0x0807_0605_0403_0201);
}

// ── manifests ──

fn dir(rel: &str) -> SimpleEntry {
    SimpleEntry { rel: rel.to_string(), is_dir: true, stream: None }
}

fn file(rel: &str, name: Option<&str>) -> SimpleEntry {
    SimpleEntry { rel: rel.to_string(), is_dir: false, stream: name.map(|s| s.to_string()) }
}

fn shape(e: &SimpleEntry) -> (String, bool, Option<String>) {
    (e.rel.clone(), e.is_dir, e.stream.clone())
}

#[test]
fn a_manifest_has_this_layout() {
    let bytes = serialize_manifest(Magic::Simple, &vec![dir("d"), file("d/é", Some("s"))]);
    let mut want = b"FLOCKLIT".to_vec();
    want.extend_from_slice(&[1, 0, 2, 0, 0, 0]);
    want.extend_from_slice(&[1, 0, 0, 0, b'd', 1]);
    want.extend_from_slice(&[4, 0, 0, 0, b'd', b'/', 0xC3, 0xA9, 0]);
    want.extend_from_slice(&[1, 0, 0, 0, b's']);
    assert_eq!(bytes, want);
    assert_eq!(serialize_manifest(Magic::Move, &Vec::new())[..8], *b"FLOCKMOV");
    assert_eq!(serialize_manifest(Magic::Full, &Vec::new())[..8], *b"FLOCKVLT");
}

#[test]
fn a_manifest_reads_back() {
    let entries = vec![dir("目录"), file("目录/文件", Some("fl_000000")), file("b", Some("x"))];
    for (magic, reading) in [
        (Magic::Simple, Reading::Streams),
        (Magic::Simple, Reading::Resume),
        (Magic::Move, Reading::Container),
        (Magic::Move, Reading::Resume),
    ] {
        let parsed = parse_manifest(magic, reading, &serialize_manifest(magic, &entries));
        assert_eq!(parsed.broken, None);
        assert_eq!(parsed.announced, 3);
        let read: Vec<_> = parsed.entries.iter().map(shape).collect();
        assert_eq!(read, entries.iter().map(shape).collect::<Vec<_>>());
    }
    let plain = vec![dir("d"), file("f", None)];
    let meta = parse_manifest(Magic::Full, Reading::Meta, &serialize_manifest(Magic::Full, &plain));
    assert_eq!(meta.entries.iter().map(shape).collect::<Vec<_>>(), [shape(&plain[0]), shape(&plain[1])]);
}

fn broken(magic: Magic, reading: Reading, bytes: &[u8]) -> String {
    parse_manifest(magic, reading, bytes).broken.unwrap()
}

#[test]
fn a_broken_manifest_says_what_is_broken() {
    let good = serialize_manifest(Magic::Move, &vec![dir("d"), file("f", Some("fl_000000"))]);
    let read = |bytes: &[u8]| broken(Magic::Move, Reading::Container, bytes);
    assert_eq!(read(&good[..13]), "vault 数据损坏");
    assert_eq!(broken(Magic::Simple, Reading::Streams, &good), "vault 标识不匹配");
    let n = good.len();
    for cut in 14..n {
        assert!(read(&good[..cut]).starts_with("vault 数据损坏"), "cut at {}", cut);
    }
    let parsed = parse_manifest(Magic::Move, Reading::Container, &good[..n - 1]);
    assert_eq!(parsed.entries.len(), 1);
    let mut invalid = good.clone();
    invalid[18] = 0xFF;
    assert_eq!(read(&invalid), "vault 路径不是有效 UTF-8");
}

#[test]
fn unsafe_entries_are_refused() {
    let climbs = serialize_manifest(Magic::Simple, &vec![dir("../up")]);
    assert_eq!(broken(Magic::Simple, Reading::Streams, &climbs), "拒绝不安全的路径: ../up");
    let name = serialize_manifest(Magic::Move, &vec![file("f", Some("../up"))]);
    assert_eq!(broken(Magic::Move, Reading::Container, &name), "拒绝不安全的容器名: ../up");
    let stream = serialize_manifest(Magic::Simple, &vec![file("f", Some("a/b"))]);
    assert_eq!(parse_manifest(Magic::Simple, Reading::Streams, &stream).broken, None);
}

fn packed(entries: &[(&str, u8, &[u8])]) -> Vec<u8> {
    let mut bytes = b"FLOCKVLT".to_vec();
    bytes.extend_from_slice(&[1, 0]);
    bytes.extend_from_slice(&(entries.len() as u32).to_le_bytes());
    for (rel, kind, data) in entries {
        bytes.extend_from_slice(&(rel.len() as u32).to_le_bytes());
        bytes.extend_from_slice(rel.as_bytes());
        bytes.push(*kind);
        bytes.extend_from_slice(&(data.len() as u64).to_le_bytes());
        bytes.extend_from_slice(data);
    }
    bytes
}

#[test]
fn a_manifest_with_contents_reads_back() {
    let bytes = packed(&[("d", 1, b""), ("d/f", 0, b"data"), ("g", 0, b"")]);
    let parsed = parse_full(&bytes);
    assert_eq!(parsed.broken, None);
    assert_eq!(parsed.announced, 3);
    let read: Vec<(&str, bool, &[u8])> =
        parsed.entries.iter().map(|e| (e.rel.as_str(), e.is_dir, e.data.as_slice())).collect();
    assert_eq!(read, [("d", true, &b""[..]), ("d/f", false, b"data"), ("g", false, b"")]);
    assert_eq!(manifest_file_count_full(&bytes), Ok(2));
}

#[test]
fn a_broken_manifest_with_contents_says_what_is_broken() {
    let bytes = packed(&[("f", 0, b"data")]);
    let n = bytes.len();
    let read = |cut: usize| parse_full(&bytes[..cut]).broken.unwrap();
    assert_eq!(read(13), "vault 数据损坏");
    assert_eq!(read(19), "vault 数据损坏 (kind)");
    assert_eq!(read(20), "vault 数据损坏 (u64)");
    assert_eq!(read(n - 1), "vault 数据损坏 (data)");
    assert_eq!(parse_full(b"FLOCKLIT______").broken.unwrap(), "vault 标识不匹配");
    // Files are counted by the lengths alone.
    assert_eq!(manifest_file_count_full(&bytes[..n - 1]), Ok(1));
    assert_eq!(manifest_file_count_full(&bytes[..20]), Err("vault 数据损坏 (u64)".to_string()));
    assert_eq!(manifest_file_count_full(&bytes[..19]), Err("vault 数据损坏 (kind)".to_string()));
    assert_eq!(manifest_file_count_full(&bytes[..17]), Err("vault 数据损坏 (u32)".to_string()));
}

// ── vaults ──

#[test]
fn a_vault_begins_with_salt_and_mode() {
    let mut head = vec![5u8; 16];
    assert_eq!(
        vault::read_vault_mode(&head),
        Err("读取 mode 失败: failed to fill whole buffer".to_string())
    );
    head.push(vault::MODE_MOVE);
    assert_eq!(vault::read_vault_salt(&head), Ok([5u8; 16]));
    assert_eq!(vault::read_vault_mode(&head), Ok(2));
    assert_eq!(
        vault::read_vault_salt(&head[..15]),
        Err("读取 salt 失败: failed to fill whole buffer".to_string())
    );
    assert_eq!(vault::meta_length(&[1, 2, 0, 0, 9]), Ok(513));
    assert_eq!(
        vault::meta_length(&[1, 2, 0]),
        Err("读取清单长度失败: failed to fill whole buffer".to_string())
    );
}

#[test]
fn a_vault_is_a_file_of_that_name() {
    assert!(vault::vault_exists(Some(EntryKind::File)));
    assert!(!vault::vault_exists(Some(EntryKind::Dir)));
    assert!(!vault::vault_exists(Some(EntryKind::Other)));
    assert!(!vault::vault_exists(None));
}

#[test]
fn the_journal_is_one_letter() {
    assert_eq!(vault::write_pending(vault::PendingOp::Encrypt), b"E");
    assert_eq!(vault::write_pending(vault::PendingOp::Decrypt), b"D");
    assert_eq!(vault::read_pending(Some(b"E and more")), Some(vault::PendingOp::Encrypt));
    assert_eq!(vault::read_pending(Some(b"D")), Some(vault::PendingOp::Decrypt));
    assert_eq!(vault::read_pending(Some(b"e")), None);
    assert_eq!(vault::read_pending(Some(b"")), None);
    assert_eq!(vault::read_pending(None), None);
}

fn sealed_vault(mode: u8, manifest: &[u8]) -> Vec<u8> {
    let mut bytes = vec![9u8; 16];
    bytes.push(mode);
    bytes.extend(crypto::encrypt(&[7u8; 32], manifest).unwrap());
    bytes
}

/// Run a job, saying that everything was done and nothing is there.
fn end_of(started: Result<Job, String>) -> Result<usize, String> {
    let mut job = started?;
    while job.outcome().is_none() {
        let reply = match job.action().unwrap() {
            Action::Probe(_) => Reply::Found(false),
            Action::ListTree => Reply::Listed(Listing { dirs: Vec::new(), files: Vec::new() }),
            _ => Reply::Done,
        };
        job.reply(reply);
    }
    job.outcome().unwrap()
}

#[test]
fn a_vault_that_cannot_be_read_is_refused() {
    let key = [7u8; 32];
    assert_eq!(
        end_of(vault::decrypt_folder(1, &[0u8; 28], &key)),
        Err("vault 数据损坏".to_string())
    );
    let unknown = sealed_vault(9, b"");
    assert_eq!(
        end_of(vault::decrypt_folder(9, &unknown, &key)),
        Err("未知的 vault 模式: 9".to_string())
    );
    assert_eq!(
        end_of(vault::resume_encrypt(9, &unknown, &key)),
        Err("未知的 vault 模式: 9".to_string())
    );
    let wrong = sealed_vault(2, b"FLOCKLIT\x01\x00\x00\x00\x00\x00");
    assert_eq!(
        end_of(vault::decrypt_folder(2, &wrong, &key)),
        Err("vault 标识不匹配".to_string())
    );
    assert_eq!(
        vault::read_and_decrypt_manifest(2, &key, &wrong).unwrap(),
        b"FLOCKLIT\x01\x00\x00\x00\x00\x00"
    );
    assert_eq!(
        vault::read_and_decrypt_manifest(3, &key, &[0u8; 12]),
        Err("密文数据太短".to_string())
    );
}

#[test]
fn the_names_of_a_manifest_are_found_again() {
    let entries = vec![dir("d"), file("d/f", Some("fl_000000")), file("g", Some("fl_000001"))];
    let bytes = serialize_manifest(Magic::Move, &entries);
    match vault::parse_simple_file_rels(Magic::Move, &bytes) {
        Ok(pairs) => assert_eq!(
            pairs,
            [
                ("d/f".to_string(), "fl_000000".to_string()),
                ("g".to_string(), "fl_000001".to_string())
            ]
        ),
        Err(e) => panic!("{}", e),
    }
    assert!(vault::parse_simple_file_rels(Magic::Simple, &bytes).is_err());
}

#[test]
fn a_lock_writes_the_vault_before_it_touches_a_file() {
    let listing = Listing { dirs: strings(&["d"]), files: strings(&["d/b", "a"]) };
    let tasks = vault::lock_tasks(
        vault::LockMode::Simple,
        &listing,
        &[7u8; 32],
        &[9u8; 16],
        false,
    )
    .unwrap();
    assert_eq!(tasks[0], Task::Do(Action::CreateVault));
    assert_eq!(
        tasks[1],
        Task::Do(Action::WriteVault { part: Part::Salt, bytes: vec![9u8; 16] })
    );
    assert_eq!(
        tasks[2],
        Task::Do(Action::WriteVault { part: Part::Mode, bytes: vec![1] })
    );
    let commit = tasks.iter().position(|t| *t == Task::Do(Action::CommitVault)).unwrap();
    let first = tasks.iter().position(|t| matches!(t, Task::Lock { .. })).unwrap();
    assert!(commit < first);
    match &tasks[first] {
        Task::Lock { rel, name, .. } => assert_eq!((rel.as_str(), name.as_str()), ("a", "fl_000000")),
        _ => unreachable!(),
    }
}

// ── failures ──

#[test]
fn a_failed_action_ends_the_job_unless_it_does_not_matter() {
    let listing = Listing { dirs: Vec::new(), files: strings(&["a"]) };
    let start = || vault::encrypt_folder_simple(&listing, &[7u8; 32], &[9u8; 16]).unwrap();
    let mut job = start();
    job.reply(Reply::Failed("no vault".to_string()));
    assert_eq!(job.outcome(), Some(Err("no vault".to_string())));
    assert!(job.action().is_none());
    let mut job = start();
    while !matches!(job.action().unwrap(), Action::Mark(_)) {
        job.reply(Reply::Done);
    }
    job.reply(Reply::Failed("no journal".to_string()));
    assert!(job.outcome().is_none());
}

#[test]
fn a_fault_names_its_stage_and_its_subject() {
    assert_eq!(describe(Stage::ReadFile, "a/b", "gone"), "读取文件失败 a/b: gone");
    assert_eq!(describe(Stage::OpenVault, "ignored", "gone"), "无法读取 vault: gone");
    assert_eq!(
        cut_short_text(Stage::ReadSalt),
        "读取 salt 失败: failed to fill whole buffer"
    );
    let fault = Fault {
        stage: Stage::CreateStream,
        shown: "x".to_string(),
        cause: "denied".to_string(),
    };
    assert_eq!(fault.message(), "无法创建 ADS (可能非 NTFS 卷): denied");
}

#[test]
fn every_stage_has_its_message() {
    let plain = [
        (Stage::SeekVault, "无法定位 vault"),
        (Stage::ReadSalt, "读取 salt 失败"),
        (Stage::ReadMode, "读取 mode 失败"),
        (Stage::ReadMetaLength, "读取清单长度失败"),
        (Stage::ReadMeta, "读取清单失败"),
        (Stage::CreateVault, "无法创建 vault 文件"),
        (Stage::WriteSalt, "写入 salt 失败"),
        (Stage::WriteMode, "写入 mode 失败"),
        (Stage::WriteMetaLength, "写入清单长度失败"),
        (Stage::WriteMeta, "写入清单失败"),
        (Stage::WriteVault, "写入 vault 失败"),
        (Stage::RenameVault, "重命名 vault 失败"),
        (Stage::CreateHost, "无法创建 host 文件"),
        (Stage::WriteHost, "写入 host 失败"),
        (Stage::CopyToStream, "写入 ADS 失败"),
        (Stage::CreateData, "无法创建数据容器"),
        (Stage::CreateParent, "创建父目录失败"),
        (Stage::FlushFile, "写入文件失败"),
        (Stage::RenameFile, "重命名文件失败"),
        (Stage::ReadEntry, "读取目录项失败"),
        (Stage::ReadType, "获取类型失败"),
        (Stage::ReadChunk, "读取失败"),
        (Stage::WriteNonce, "写入 nonce 失败"),
        (Stage::WriteFrame, "写入分块失败"),
        (Stage::WriteFrameLength, "写入分块长度失败"),
        (Stage::ReadNonce, "读取 nonce 失败"),
        (Stage::ReadFlag, "读取分块标志失败"),
        (Stage::ReadFrameLength, "读取分块长度失败"),
        (Stage::ReadFrame, "读取分块失败"),
        (Stage::CurrentDir, "无法获取当前目录"),
    ];
    for (stage, heading) in plain {
        assert_eq!(describe(stage, "s", "c"), format!("{}: c", heading));
    }
    let named = [
        (Stage::MoveFile, "移动文件失败"),
        (Stage::CreateDir, "创建目录失败"),
        (Stage::CreateFile, "创建文件失败"),
        (Stage::WriteFile, "写入文件失败"),
        (Stage::RestoreFile, "恢复文件失败"),
        (Stage::ReadDir, "读取目录失败"),
    ];
    for (stage, heading) in named {
        assert_eq!(describe(stage, "s", "c"), format!("{} s: c", heading));
    }
}

#[test]
fn numbers_of_seven_bytes_are_little_endian() {
    assert_eq!(put_le56(0x01_0203_0405_0607), [7, 6, 5, 4, 3, 2, 1]);
    assert_eq!(put_le56(0xFF01_0203_0405_0607), [7, 6, 5, 4, 3, 2, 1]);
    assert_eq!(get_le56(&[7, 6, 5, 4, 3, 2, 1, 9]), 0x01_0203_0405_0607);
    assert_eq!(get_le56(&[255; 7]), (1 << 56) - 1);
}
