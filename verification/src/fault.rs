//! Where an operation on the disk failed, and the message that says so.

use vstd::prelude::*;

verus! {

/// The step of an operation that failed.
#[derive(Clone, Copy, PartialEq, Eq, Debug, Structural)]
pub enum Stage {
    /// Opening the vault for reading.
    OpenVault,
    /// Moving to a place in the vault.
    SeekVault,
    /// Reading the salt of the vault.
    ReadSalt,
    /// Reading the mode of the vault.
    ReadMode,
    /// Reading the length of the metadata.
    ReadMetaLength,
    /// Reading the metadata.
    ReadMeta,
    /// Creating the temporary vault.
    CreateVault,
    /// Writing the salt.
    WriteSalt,
    /// Writing the mode.
    WriteMode,
    /// Writing the length of the metadata.
    WriteMetaLength,
    /// Writing the metadata.
    WriteMeta,
    /// Writing or flushing the rest of the vault.
    WriteVault,
    /// Renaming the temporary vault into place.
    RenameVault,
    /// Opening a file to lock.
    ReadFile,
    /// Creating the host file.
    CreateHost,
    /// Writing the marker of the host file.
    WriteHost,
    /// Creating a stream on the host file.
    CreateStream,
    /// Copying a file into its stream.
    CopyToStream,
    /// Creating the container.
    CreateData,
    /// Moving a file into the container.
    MoveFile,
    /// Creating a directory.
    CreateDir,
    /// Creating the directories above a file.
    CreateParent,
    /// Creating the temporary file of a restored one.
    CreateFile,
    /// Filling the temporary file of a restored one.
    WriteFile,
    /// Writing decrypted chunks to a temporary file.
    FlushFile,
    /// Renaming a temporary file into place.
    RenameFile,
    /// Moving a file back out of the container.
    RestoreFile,
    /// Opening a directory.
    ReadDir,
    /// Reading the next entry of a directory.
    ReadEntry,
    /// Reading the type of an entry.
    ReadType,
    /// Reading the next chunk of a file.
    ReadChunk,
    /// Writing the nonce of a stream.
    WriteNonce,
    /// Writing the flag or the body of a frame.
    WriteFrame,
    /// Writing the length of a frame.
    WriteFrameLength,
    /// Reading the nonce of a stream.
    ReadNonce,
    /// Reading the flag of a frame.
    ReadFlag,
    /// Reading the length of a frame.
    ReadFrameLength,
    /// Reading the body of a frame.
    ReadFrame,
    /// Finding the current directory.
    CurrentDir,
}

/// A failed step: what it worked on, as shown to the user, and the cause.
#[derive(Debug)]
pub struct Fault {
    /// The step.
    pub stage: Stage,
    /// The path or name that the message shows, for the steps that show one.
    pub shown: String,
    /// The system's description of the error.
    pub cause: String,
}

/// What went wrong at a stage.
pub open spec fn heading(stage: Stage) -> Seq<char> {
    match stage {
        Stage::OpenVault => "无法读取 vault"@,
        Stage::SeekVault => "无法定位 vault"@,
        Stage::ReadSalt => "读取 salt 失败"@,
        Stage::ReadMode => "读取 mode 失败"@,
        Stage::ReadMetaLength => "读取清单长度失败"@,
        Stage::ReadMeta => "读取清单失败"@,
        Stage::CreateVault => "无法创建 vault 文件"@,
        Stage::WriteSalt => "写入 salt 失败"@,
        Stage::WriteMode => "写入 mode 失败"@,
        Stage::WriteMetaLength => "写入清单长度失败"@,
        Stage::WriteMeta => "写入清单失败"@,
        Stage::WriteVault => "写入 vault 失败"@,
        Stage::RenameVault => "重命名 vault 失败"@,
        Stage::ReadFile => "读取文件失败"@,
        Stage::CreateHost => "无法创建 host 文件"@,
        Stage::WriteHost => "写入 host 失败"@,
        Stage::CreateStream => "无法创建 ADS (可能非 NTFS 卷)"@,
        Stage::CopyToStream => "写入 ADS 失败"@,
        Stage::CreateData => "无法创建数据容器"@,
        Stage::MoveFile => "移动文件失败"@,
        Stage::CreateDir => "创建目录失败"@,
        Stage::CreateParent => "创建父目录失败"@,
        Stage::CreateFile => "创建文件失败"@,
        Stage::WriteFile => "写入文件失败"@,
        Stage::FlushFile => "写入文件失败"@,
        Stage::RenameFile => "重命名文件失败"@,
        Stage::RestoreFile => "恢复文件失败"@,
        Stage::ReadDir => "读取目录失败"@,
        Stage::ReadEntry => "读取目录项失败"@,
        Stage::ReadType => "获取类型失败"@,
        Stage::ReadChunk => "读取失败"@,
        Stage::WriteNonce => "写入 nonce 失败"@,
        Stage::WriteFrame => "写入分块失败"@,
        Stage::WriteFrameLength => "写入分块长度失败"@,
        Stage::ReadNonce => "读取 nonce 失败"@,
        Stage::ReadFlag => "读取分块标志失败"@,
        Stage::ReadFrameLength => "读取分块长度失败"@,
        Stage::ReadFrame => "读取分块失败"@,
        Stage::CurrentDir => "无法获取当前目录"@,
    }
}

/// Does the message of this stage name the path or name that it worked on?
pub open spec fn names_subject(stage: Stage) -> bool {
    match stage {
        Stage::ReadFile => true,
        Stage::MoveFile => true,
        Stage::CreateDir => true,
        Stage::CreateFile => true,
        Stage::WriteFile => true,
        Stage::RestoreFile => true,
        Stage::ReadDir => true,
        _ => false,
    }
}

/// The message of a failed step.
pub open spec fn fault_message(stage: Stage, shown: Seq<char>, cause: Seq<char>) -> Seq<char> {
    if names_subject(stage) {
        heading(stage) + " "@ + shown + ": "@ + cause
    } else {
        heading(stage) + ": "@ + cause
    }
}

fn heading_text(stage: Stage) -> (s: &'static str)
    ensures
        s@ == heading(stage),
{
    match stage {
        Stage::OpenVault => "无法读取 vault",
        Stage::SeekVault => "无法定位 vault",
        Stage::ReadSalt => "读取 salt 失败",
        Stage::ReadMode => "读取 mode 失败",
        Stage::ReadMetaLength => "读取清单长度失败",
        Stage::ReadMeta => "读取清单失败",
        Stage::CreateVault => "无法创建 vault 文件",
        Stage::WriteSalt => "写入 salt 失败",
        Stage::WriteMode => "写入 mode 失败",
        Stage::WriteMetaLength => "写入清单长度失败",
        Stage::WriteMeta => "写入清单失败",
        Stage::WriteVault => "写入 vault 失败",
        Stage::RenameVault => "重命名 vault 失败",
        Stage::ReadFile => "读取文件失败",
        Stage::CreateHost => "无法创建 host 文件",
        Stage::WriteHost => "写入 host 失败",
        Stage::CreateStream => "无法创建 ADS (可能非 NTFS 卷)",
        Stage::CopyToStream => "写入 ADS 失败",
        Stage::CreateData => "无法创建数据容器",
        Stage::MoveFile => "移动文件失败",
        Stage::CreateDir => "创建目录失败",
        Stage::CreateParent => "创建父目录失败",
        Stage::CreateFile => "创建文件失败",
        Stage::WriteFile => "写入文件失败",
        Stage::FlushFile => "写入文件失败",
        Stage::RenameFile => "重命名文件失败",
        Stage::RestoreFile => "恢复文件失败",
        Stage::ReadDir => "读取目录失败",
        Stage::ReadEntry => "读取目录项失败",
        Stage::ReadType => "获取类型失败",
        Stage::ReadChunk => "读取失败",
        Stage::WriteNonce => "写入 nonce 失败",
        Stage::WriteFrame => "写入分块失败",
        Stage::WriteFrameLength => "写入分块长度失败",
        Stage::ReadNonce => "读取 nonce 失败",
        Stage::ReadFlag => "读取分块标志失败",
        Stage::ReadFrameLength => "读取分块长度失败",
        Stage::ReadFrame => "读取分块失败",
        Stage::CurrentDir => "无法获取当前目录",
    }
}

fn shows_subject(stage: Stage) -> (r: bool)
    ensures
        r == names_subject(stage),
{
    match stage {
        Stage::ReadFile => true,
        Stage::MoveFile => true,
        Stage::CreateDir => true,
        Stage::CreateFile => true,
        Stage::WriteFile => true,
        Stage::RestoreFile => true,
        Stage::ReadDir => true,
        _ => false,
    }
}

/// Write the message of a failed step.
pub fn describe(stage: Stage, shown: &str, cause: &str) -> (s: String)
    ensures
        s@ == fault_message(stage, shown@, cause@),
{
    let mut s = String::from_str(heading_text(stage));
    if shows_subject(stage) {
        s.append(" ");
        s.append(shown);
    }
    s.append(": ");
    s.append(cause);
    s
}

/// The message of a read that met the end of the input.
pub open spec fn cut_short(stage: Stage) -> Seq<char> {
    fault_message(stage, Seq::empty(), "failed to fill whole buffer"@)
}

/// Write the message of a read that met the end of the input.
pub fn cut_short_text(stage: Stage) -> (s: String)
    ensures
        s@ == cut_short(stage),
{
    proof {
        reveal_strlit("");
        assert(""@ =~= Seq::empty());
    }
    describe(stage, "", "failed to fill whole buffer")
}

impl Fault {
    /// The message of this fault.
    pub open spec fn says(self) -> Seq<char> {
        fault_message(self.stage, self.shown@, self.cause@)
    }

    /// Write the message of this fault.
    pub fn message(&self) -> (s: String)
        ensures
            s@ == self.says(),
    {
        describe(self.stage, self.shown.as_str(), self.cause.as_str())
    }
}

// ── laws ──

/// Does the message of a step name what it worked on? It does of steps on a file, a
/// directory or a stored file of the folder, and not of steps on what there is but one
/// of.
pub open spec fn works_on_one_of_many(stage: Stage) -> bool {
    stage is ReadFile || stage is MoveFile || stage is CreateDir || stage is CreateFile
        || stage is WriteFile || stage is RestoreFile || stage is ReadDir
}

/// A message says what went wrong, and ends with a colon and the cause; between them it
/// names what the step worked on where there is more than one such thing, and otherwise
/// it does not depend on it.
pub proof fn message_names_step_and_cause(
    stage: Stage,
    shown: &str,
    other: &str,
    cause: &str,
    s: String,
    t: String,
)
    requires
        call_ensures(describe, (stage, shown, cause), s),
        call_ensures(describe, (stage, other, cause), t),
    ensures
        works_on_one_of_many(stage) ==> s@ == heading(stage) + seq![' '] + shown@ + seq![':', ' ']
            + cause@,
        !works_on_one_of_many(stage) ==> s@ == heading(stage) + seq![':', ' '] + cause@ && s@
            == t@,
{
    reveal_strlit(" ");
    reveal_strlit(": ");
    assert(" "@ =~= seq![' ']);
    assert(": "@ =~= seq![':', ' ']);
}

/// A fault is described by its own step, subject and cause.
pub proof fn fault_describes_itself(f: &Fault, s: String)
    requires
        call_ensures(Fault::message, (f,), s),
    ensures
        s@ == if works_on_one_of_many(f.stage) {
            heading(f.stage) + seq![' '] + f.shown@ + seq![':', ' '] + f.cause@
        } else {
            heading(f.stage) + seq![':', ' '] + f.cause@
        },
{
    reveal_strlit(" ");
    reveal_strlit(": ");
    assert(" "@ =~= seq![' ']);
    assert(": "@ =~= seq![':', ' ']);
}

} // verus!
