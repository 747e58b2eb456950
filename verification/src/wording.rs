//! What the messages of failed steps are made of.

use vstd::prelude::*;

use crate::fault::{describe, heading, Stage};
use crate::text::{holds, holds_at};

verus! {

/// What was being done: reading, locating, creating, writing, renaming, moving, restoring
/// or getting.
pub open spec fn deed(stage: Stage) -> Seq<char> {
    match stage {
        Stage::OpenVault => "读取"@,
        Stage::ReadSalt => "读取"@,
        Stage::ReadMode => "读取"@,
        Stage::ReadMetaLength => "读取"@,
        Stage::ReadMeta => "读取"@,
        Stage::ReadFile => "读取"@,
        Stage::ReadDir => "读取"@,
        Stage::ReadEntry => "读取"@,
        Stage::ReadChunk => "读取"@,
        Stage::ReadNonce => "读取"@,
        Stage::ReadFlag => "读取"@,
        Stage::ReadFrameLength => "读取"@,
        Stage::ReadFrame => "读取"@,
        Stage::SeekVault => "定位"@,
        Stage::CreateVault => "创建"@,
        Stage::CreateHost => "创建"@,
        Stage::CreateStream => "创建"@,
        Stage::CreateData => "创建"@,
        Stage::CreateDir => "创建"@,
        Stage::CreateParent => "创建"@,
        Stage::CreateFile => "创建"@,
        Stage::WriteSalt => "写入"@,
        Stage::WriteMode => "写入"@,
        Stage::WriteMetaLength => "写入"@,
        Stage::WriteMeta => "写入"@,
        Stage::WriteVault => "写入"@,
        Stage::WriteHost => "写入"@,
        Stage::CopyToStream => "写入"@,
        Stage::WriteFile => "写入"@,
        Stage::FlushFile => "写入"@,
        Stage::WriteNonce => "写入"@,
        Stage::WriteFrame => "写入"@,
        Stage::WriteFrameLength => "写入"@,
        Stage::RenameVault => "重命名"@,
        Stage::RenameFile => "重命名"@,
        Stage::MoveFile => "移动"@,
        Stage::RestoreFile => "恢复"@,
        Stage::ReadType => "获取"@,
        Stage::CurrentDir => "获取"@,
    }
}

/// What it was being done to.
pub open spec fn thing(stage: Stage) -> Seq<char> {
    match stage {
        Stage::OpenVault => "vault"@,
        Stage::SeekVault => "vault"@,
        Stage::CreateVault => "vault"@,
        Stage::WriteVault => "vault"@,
        Stage::RenameVault => "vault"@,
        Stage::ReadSalt => "salt"@,
        Stage::WriteSalt => "salt"@,
        Stage::ReadMode => "mode"@,
        Stage::WriteMode => "mode"@,
        Stage::ReadMetaLength => "清单长度"@,
        Stage::WriteMetaLength => "清单长度"@,
        Stage::ReadMeta => "清单"@,
        Stage::WriteMeta => "清单"@,
        Stage::ReadFile => "文件"@,
        Stage::MoveFile => "文件"@,
        Stage::CreateFile => "文件"@,
        Stage::WriteFile => "文件"@,
        Stage::FlushFile => "文件"@,
        Stage::RenameFile => "文件"@,
        Stage::RestoreFile => "文件"@,
        Stage::CreateHost => "host"@,
        Stage::WriteHost => "host"@,
        Stage::CreateStream => "ADS"@,
        Stage::CopyToStream => "ADS"@,
        Stage::CreateData => "数据容器"@,
        Stage::CreateDir => "目录"@,
        Stage::ReadDir => "目录"@,
        Stage::CreateParent => "父目录"@,
        Stage::ReadEntry => "目录项"@,
        Stage::ReadType => "类型"@,
        Stage::ReadChunk => "读取"@,
        Stage::WriteNonce => "nonce"@,
        Stage::ReadNonce => "nonce"@,
        Stage::WriteFrame => "分块"@,
        Stage::ReadFrame => "分块"@,
        Stage::WriteFrameLength => "分块长度"@,
        Stage::ReadFrameLength => "分块长度"@,
        Stage::ReadFlag => "分块标志"@,
        Stage::CurrentDir => "当前目录"@,
    }
}

/// The message of a failed step names what was being done and what it was being done to.
pub proof fn message_names_deed_and_thing(stage: Stage, shown: &str, cause: &str, s: String)
    requires
        call_ensures(describe, (stage, shown, cause), s),
    ensures
        holds(s@, deed(stage)),
        holds(s@, thing(stage)),
{
    lemma_heading(stage);
    let h = heading(stage);
    let i = choose|i: int| #[trigger] holds_at(h, deed(stage), i);
    let j = choose|j: int| #[trigger] holds_at(h, thing(stage), j);
    assert(s@.take(h.len() as int) =~= h);
    assert(s@.subrange(i, i + deed(stage).len()) =~= h.subrange(i, i + deed(stage).len()));
    assert(s@.subrange(j, j + thing(stage).len()) =~= h.subrange(j, j + thing(stage).len()));
    assert(holds_at(s@, deed(stage), i));
    assert(holds_at(s@, thing(stage), j));
}

#[verifier::rlimit(30)]
proof fn lemma_heading(stage: Stage)
    ensures
        holds(heading(stage), deed(stage)),
        holds(heading(stage), thing(stage)),
{
    reveal_strlit("读取");
    reveal_strlit("定位");
    reveal_strlit("创建");
    reveal_strlit("写入");
    reveal_strlit("重命名");
    reveal_strlit("移动");
    reveal_strlit("恢复");
    reveal_strlit("获取");
    reveal_strlit("vault");
    reveal_strlit("salt");
    reveal_strlit("mode");
    reveal_strlit("清单长度");
    reveal_strlit("清单");
    reveal_strlit("文件");
    reveal_strlit("host");
    reveal_strlit("ADS");
    reveal_strlit("数据容器");
    reveal_strlit("目录");
    reveal_strlit("父目录");
    reveal_strlit("目录项");
    reveal_strlit("类型");
    reveal_strlit("nonce");
    reveal_strlit("分块");
    reveal_strlit("分块长度");
    reveal_strlit("分块标志");
    reveal_strlit("当前目录");
    match stage {
        Stage::OpenVault => {
            reveal_strlit("无法读取 vault");
            lemma_there("无法读取 vault"@, deed(stage), 2);
            lemma_there("无法读取 vault"@, thing(stage), 5);
        },
        Stage::SeekVault => {
            reveal_strlit("无法定位 vault");
            lemma_there("无法定位 vault"@, deed(stage), 2);
            lemma_there("无法定位 vault"@, thing(stage), 5);
        },
        Stage::ReadSalt => {
            reveal_strlit("读取 salt 失败");
            lemma_there("读取 salt 失败"@, deed(stage), 0);
            lemma_there("读取 salt 失败"@, thing(stage), 3);
        },
        Stage::ReadMode => {
            reveal_strlit("读取 mode 失败");
            lemma_there("读取 mode 失败"@, deed(stage), 0);
            lemma_there("读取 mode 失败"@, thing(stage), 3);
        },
        Stage::ReadMetaLength => {
            reveal_strlit("读取清单长度失败");
            lemma_there("读取清单长度失败"@, deed(stage), 0);
            lemma_there("读取清单长度失败"@, thing(stage), 2);
        },
        Stage::ReadMeta => {
            reveal_strlit("读取清单失败");
            lemma_there("读取清单失败"@, deed(stage), 0);
            lemma_there("读取清单失败"@, thing(stage), 2);
        },
        Stage::CreateVault => {
            reveal_strlit("无法创建 vault 文件");
            lemma_there("无法创建 vault 文件"@, deed(stage), 2);
            lemma_there("无法创建 vault 文件"@, thing(stage), 5);
        },
        Stage::WriteSalt => {
            reveal_strlit("写入 salt 失败");
            lemma_there("写入 salt 失败"@, deed(stage), 0);
            lemma_there("写入 salt 失败"@, thing(stage), 3);
        },
        Stage::WriteMode => {
            reveal_strlit("写入 mode 失败");
            lemma_there("写入 mode 失败"@, deed(stage), 0);
            lemma_there("写入 mode 失败"@, thing(stage), 3);
        },
        Stage::WriteMetaLength => {
            reveal_strlit("写入清单长度失败");
            lemma_there("写入清单长度失败"@, deed(stage), 0);
            lemma_there("写入清单长度失败"@, thing(stage), 2);
        },
        Stage::WriteMeta => {
            reveal_strlit("写入清单失败");
            lemma_there("写入清单失败"@, deed(stage), 0);
            lemma_there("写入清单失败"@, thing(stage), 2);
        },
        Stage::WriteVault => {
            reveal_strlit("写入 vault 失败");
            lemma_there("写入 vault 失败"@, deed(stage), 0);
            lemma_there("写入 vault 失败"@, thing(stage), 3);
        },
        Stage::RenameVault => {
            reveal_strlit("重命名 vault 失败");
            lemma_there("重命名 vault 失败"@, deed(stage), 0);
            lemma_there("重命名 vault 失败"@, thing(stage), 4);
        },
        Stage::ReadFile => {
            reveal_strlit("读取文件失败");
            lemma_there("读取文件失败"@, deed(stage), 0);
            lemma_there("读取文件失败"@, thing(stage), 2);
        },
        Stage::CreateHost => {
            reveal_strlit("无法创建 host 文件");
            lemma_there("无法创建 host 文件"@, deed(stage), 2);
            lemma_there("无法创建 host 文件"@, thing(stage), 5);
        },
        Stage::WriteHost => {
            reveal_strlit("写入 host 失败");
            lemma_there("写入 host 失败"@, deed(stage), 0);
            lemma_there("写入 host 失败"@, thing(stage), 3);
        },
        Stage::CreateStream => {
            reveal_strlit("无法创建 ADS (可能非 NTFS 卷)");
            lemma_there("无法创建 ADS (可能非 NTFS 卷)"@, deed(stage), 2);
            lemma_there("无法创建 ADS (可能非 NTFS 卷)"@, thing(stage), 5);
        },
        Stage::CopyToStream => {
            reveal_strlit("写入 ADS 失败");
            lemma_there("写入 ADS 失败"@, deed(stage), 0);
            lemma_there("写入 ADS 失败"@, thing(stage), 3);
        },
        Stage::CreateData => {
            reveal_strlit("无法创建数据容器");
            lemma_there("无法创建数据容器"@, deed(stage), 2);
            lemma_there("无法创建数据容器"@, thing(stage), 4);
        },
        Stage::MoveFile => {
            reveal_strlit("移动文件失败");
            lemma_there("移动文件失败"@, deed(stage), 0);
            lemma_there("移动文件失败"@, thing(stage), 2);
        },
        Stage::CreateDir => {
            reveal_strlit("创建目录失败");
            lemma_there("创建目录失败"@, deed(stage), 0);
            lemma_there("创建目录失败"@, thing(stage), 2);
        },
        Stage::CreateParent => {
            reveal_strlit("创建父目录失败");
            lemma_there("创建父目录失败"@, deed(stage), 0);
            lemma_there("创建父目录失败"@, thing(stage), 2);
        },
        Stage::CreateFile => {
            reveal_strlit("创建文件失败");
            lemma_there("创建文件失败"@, deed(stage), 0);
            lemma_there("创建文件失败"@, thing(stage), 2);
        },
        Stage::WriteFile => {
            reveal_strlit("写入文件失败");
            lemma_there("写入文件失败"@, deed(stage), 0);
            lemma_there("写入文件失败"@, thing(stage), 2);
        },
        Stage::FlushFile => {
            reveal_strlit("写入文件失败");
            lemma_there("写入文件失败"@, deed(stage), 0);
            lemma_there("写入文件失败"@, thing(stage), 2);
        },
        Stage::RenameFile => {
            reveal_strlit("重命名文件失败");
            lemma_there("重命名文件失败"@, deed(stage), 0);
            lemma_there("重命名文件失败"@, thing(stage), 3);
        },
        Stage::RestoreFile => {
            reveal_strlit("恢复文件失败");
            lemma_there("恢复文件失败"@, deed(stage), 0);
            lemma_there("恢复文件失败"@, thing(stage), 2);
        },
        Stage::ReadDir => {
            reveal_strlit("读取目录失败");
            lemma_there("读取目录失败"@, deed(stage), 0);
            lemma_there("读取目录失败"@, thing(stage), 2);
        },
        Stage::ReadEntry => {
            reveal_strlit("读取目录项失败");
            lemma_there("读取目录项失败"@, deed(stage), 0);
            lemma_there("读取目录项失败"@, thing(stage), 2);
        },
        Stage::ReadType => {
            reveal_strlit("获取类型失败");
            lemma_there("获取类型失败"@, deed(stage), 0);
            lemma_there("获取类型失败"@, thing(stage), 2);
        },
        Stage::ReadChunk => {
            reveal_strlit("读取失败");
            lemma_there("读取失败"@, deed(stage), 0);
            lemma_there("读取失败"@, thing(stage), 0);
        },
        Stage::WriteNonce => {
            reveal_strlit("写入 nonce 失败");
            lemma_there("写入 nonce 失败"@, deed(stage), 0);
            lemma_there("写入 nonce 失败"@, thing(stage), 3);
        },
        Stage::WriteFrame => {
            reveal_strlit("写入分块失败");
            lemma_there("写入分块失败"@, deed(stage), 0);
            lemma_there("写入分块失败"@, thing(stage), 2);
        },
        Stage::WriteFrameLength => {
            reveal_strlit("写入分块长度失败");
            lemma_there("写入分块长度失败"@, deed(stage), 0);
            lemma_there("写入分块长度失败"@, thing(stage), 2);
        },
        Stage::ReadNonce => {
            reveal_strlit("读取 nonce 失败");
            lemma_there("读取 nonce 失败"@, deed(stage), 0);
            lemma_there("读取 nonce 失败"@, thing(stage), 3);
        },
        Stage::ReadFlag => {
            reveal_strlit("读取分块标志失败");
            lemma_there("读取分块标志失败"@, deed(stage), 0);
            lemma_there("读取分块标志失败"@, thing(stage), 2);
        },
        Stage::ReadFrameLength => {
            reveal_strlit("读取分块长度失败");
            lemma_there("读取分块长度失败"@, deed(stage), 0);
            lemma_there("读取分块长度失败"@, thing(stage), 2);
        },
        Stage::ReadFrame => {
            reveal_strlit("读取分块失败");
            lemma_there("读取分块失败"@, deed(stage), 0);
            lemma_there("读取分块失败"@, thing(stage), 2);
        },
        Stage::CurrentDir => {
            reveal_strlit("无法获取当前目录");
            lemma_there("无法获取当前目录"@, deed(stage), 2);
            lemma_there("无法获取当前目录"@, thing(stage), 4);
        },
    }
}

proof fn lemma_there(text: Seq<char>, part: Seq<char>, i: int)
    requires
        0 <= i,
        i + part.len() <= text.len(),
        forall|k: int| 0 <= k < part.len() ==> #[trigger] part[k] == text[i + k],
    ensures
        holds(text, part),
{
    assert(text.subrange(i, i + part.len()) =~= part);
    assert(holds_at(text, part, i));
}

} // verus!
