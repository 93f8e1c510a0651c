//! What a refusal says to the user.
use vstd::prelude::*;

use crate::failure::Constraint;
use crate::failure::ErrorModel;
use crate::failure::Failure;
use crate::failure::Key;
use crate::failure::LibraryError;
use crate::failure::Reading;
use crate::failure::Rule;
use crate::failure::Step;
use crate::schema::digits_value;
use crate::schema::number;
use crate::schema::unsigned;

verus! {

/// The character of a decimal digit.
pub open spec fn digit(d: int) -> char {
    (d + '0' as int) as char
}

/// A number in decimal digits.
pub open spec fn digits(n: nat) -> Seq<char>
    decreases n,
{
    if n < 10 {
        seq![digit(n as int)]
    } else {
        digits(n / 10).push(digit((n % 10) as int))
    }
}

/// A number as it is written.
pub open spec fn decimal(n: i64) -> Seq<char> {
    if n < 0 {
        seq!['-'] + digits(-n as nat)
    } else {
        digits(n as nat)
    }
}

/// What is said of a rule that would be broken.
pub open spec fn rule_text(rule: Rule) -> Seq<char> {
    match rule {
        Rule::EmptyTagName => "Tag 名称不能为空"@,
        Rule::EmptyCategoryName => "分类名称不能为空"@,
        Rule::EmptyAlbumName => "专辑名不能为空"@,
        Rule::NoSuchTag => "Tag 不存在"@,
        Rule::NoSuchParent => "父 Tag 不存在"@,
        Rule::NoSuchCategory => "分类不存在"@,
        Rule::CategoryNotEmpty => "非空筛选维度不能删除，请先移动或删除其中的 Tag"@,
        Rule::ParentInOtherCategory => "父 Tag 必须属于同一筛选维度"@,
        Rule::ChosenTagMissing => "所选 Tag 不存在"@,
        Rule::MoveToSelf => "不能移动到自身"@,
        Rule::MoveIntoDescendant => "不能移动到自己的后代节点"@,
        Rule::UnknownCandidateKind => "无效的候选类型"@,
        Rule::NoSuchCandidateTarget => "候选目标不存在"@,
        Rule::NegativeClipStart => "片段起点不能为负数"@,
        Rule::ClipEndsBeforeStart => "片段终点必须大于起点"@,
        Rule::DanglingReference => "Tag 迁移后的外键校验失败"@,
        Rule::SameLocation => "新位置与当前位置相同"@,
        Rule::LocationOccupied => "目标位置已有数据库文件"@,
    }
}

/// What is said of a step at which a row could not be written.
pub open spec fn step_text(step: Step) -> Seq<char> {
    match step {
        Step::InsertMusic => "插入音乐失败"@,
        Step::UpdateMusic => "更新音乐失败"@,
        Step::InsertClip => "插入片段失败"@,
        Step::SaveTag => "保存 Tag 失败"@,
        Step::SaveLink => "保存 Tag 关联失败"@,
        Step::CreateUncategorized => "创建未分类维度失败"@,
        Step::CreateTag => "创建 Tag 失败"@,
        Step::CreateTagCategory => "创建 Tag 分类失败"@,
        Step::CreateCategory => "创建分类失败"@,
        Step::UpdateTag => "更新 Tag 失败"@,
        Step::UpdateCategory => "更新筛选维度失败"@,
        Step::MoveTag => "移动 Tag 失败"@,
        Step::MoveSubtree => "同步子 Tag 维度失败"@,
        Step::LiftChildren => "上移子 Tag 失败"@,
        Step::WriteLocation => "写入同步位置失败"@,
        Step::SeedCategory => "初始化 Tag 分类失败"@,
        Step::SeedTag => "初始化预设 Tag 失败"@,
        Step::MigrateCategories => "迁移 Tag 维度失败"@,
        Step::FillCategories => "补齐 Tag 维度失败"@,
        Step::MigrateTags => "迁移 Tag 节点失败"@,
        Step::SwitchTagTables => "切换新版 Tag 表失败"@,
        Step::IndexTags => "建立 Tag 树索引失败"@,
        Step::IndexPaths => "建立音乐路径唯一索引失败"@,
        Step::MigrateTag => "迁移 Tag 失败"@,
        Step::CreateDimension => "创建 Tag 维度失败"@,
    }
}

/// What no two rows may have in common, as it is named to the user.
pub open spec fn key_text(key: Key) -> Seq<char> {
    match key {
        Key::MusicId => "music.id"@,
        Key::MusicPath => "music.path"@,
        Key::ClipId => "clips.id"@,
        Key::CategoryName => "tag_categories.name"@,
        Key::TagPlace => "index 'idx_tags_sibling_name'"@,
        Key::LegacyCategoryName => "tag_categories_v2.name"@,
        Key::LegacyTagId => "tags_v2.id"@,
    }
}

/// What is said of what keeps a row from being written.
pub open spec fn constraint_text(constraint: Constraint) -> Seq<char> {
    match constraint {
        Constraint::Unique(key) => "UNIQUE constraint failed: "@ + key_text(key),
        Constraint::ForeignKey => "FOREIGN KEY constraint failed"@,
        Constraint::Full => "database or disk is full"@,
        Constraint::OutOfRange => "out of range integral type conversion attempted"@,
    }
}

/// What is said of music that cannot be read, with the place of the duration among the
/// columns that are read.
pub open spec fn reading_text(reading: Reading) -> Seq<char> {
    match reading {
        Reading::OneMusic(column) => "查询音乐失败: Invalid column type Null at index: "@ + digits(
            column as nat,
        ) + ", name: duration"@,
        Reading::AllMusic => "读取音乐失败: Invalid column type Null at index: 12, name: duration"@,
    }
}

/// What a refusal says to the user.
pub open spec fn message_text(e: ErrorModel) -> Seq<char> {
    match e {
        Failure::Rule(rule) => rule_text(rule),
        Failure::NameTaken(name) => "目标位置已有同名 Tag「"@ + name + "」"@,
        Failure::Write(step, constraint) => step_text(step) + ": "@ + constraint_text(constraint),
        Failure::NoDuration(reading) => reading_text(reading),
        Failure::NewerSchema(v) => "数据库版本 "@ + decimal(v)
            + " 高于当前程序支持的版本 3，已停止写入"@,
    }
}

proof fn lemma_digits(n: nat)
    ensures
        digits_value(digits(n)) == Some(n as int),
        digits(n).len() > 0,
        digits(n)[0] != '-' && digits(n)[0] != '+',
    decreases n,
{
    let s = digits(n);
    if n < 10 {
        assert(s.drop_last() =~= Seq::empty());
        assert(digits_value(s.drop_last()) == Some(0int));
    } else {
        lemma_digits(n / 10);
        assert(s.drop_last() =~= digits(n / 10));
    }
}

/// A number that is written is read back.
pub proof fn law_written_number_is_read_back(n: i64)
    ensures
        number(decimal(n)) == Some(n),
{
    let s = decimal(n);
    if n < 0 {
        lemma_digits(-n as nat);
        assert(unsigned(s) =~= digits(-n as nat));
    } else {
        lemma_digits(n as nat);
        assert(unsigned(s) =~= digits(n as nat));
    }
}

/// A number in decimal digits.
fn write_digits(n: u64) -> (r: String)
    ensures
        r@ == digits(n as nat),
    decreases n,
{
    let d = ((n % 10) as u8 + 48u8) as char;
    proof {
        assert(d == digit((n % 10) as int));
    }
    if n < 10 {
        let mut r = String::new();
        r.push(d);
        proof {
            assert(r@ =~= digits(n as nat));
        }
        r
    } else {
        let mut r = write_digits(n / 10);
        r.push(d);
        r
    }
}

/// A number as it is written.
pub fn write_number(n: i64) -> (r: String)
    ensures
        r@ == decimal(n),
{
    if n < 0 {
        let m: u64 = if n == i64::MIN {
            0x8000_0000_0000_0000
        } else {
            (-n) as u64
        };
        let mut r = "-".to_string();
        let rest = write_digits(m);
        proof {
            reveal_strlit("-");
            assert("-"@ =~= seq!['-']);
        }
        r.append(rest.as_str());
        r
    } else {
        write_digits(n as u64)
    }
}

impl Rule {
    /// What is said of a rule that would be broken.
    pub fn text(self) -> (r: &'static str)
        ensures
            r@ == rule_text(self),
    {
        match self {
            Rule::EmptyTagName => "Tag 名称不能为空",
            Rule::EmptyCategoryName => "分类名称不能为空",
            Rule::EmptyAlbumName => "专辑名不能为空",
            Rule::NoSuchTag => "Tag 不存在",
            Rule::NoSuchParent => "父 Tag 不存在",
            Rule::NoSuchCategory => "分类不存在",
            Rule::CategoryNotEmpty => "非空筛选维度不能删除，请先移动或删除其中的 Tag",
            Rule::ParentInOtherCategory => "父 Tag 必须属于同一筛选维度",
            Rule::ChosenTagMissing => "所选 Tag 不存在",
            Rule::MoveToSelf => "不能移动到自身",
            Rule::MoveIntoDescendant => "不能移动到自己的后代节点",
            Rule::UnknownCandidateKind => "无效的候选类型",
            Rule::NoSuchCandidateTarget => "候选目标不存在",
            Rule::NegativeClipStart => "片段起点不能为负数",
            Rule::ClipEndsBeforeStart => "片段终点必须大于起点",
            Rule::DanglingReference => "Tag 迁移后的外键校验失败",
            Rule::SameLocation => "新位置与当前位置相同",
            Rule::LocationOccupied => "目标位置已有数据库文件",
        }
    }
}

impl Step {
    /// What is said of a step at which a row could not be written.
    pub fn text(self) -> (r: &'static str)
        ensures
            r@ == step_text(self),
    {
        match self {
            Step::InsertMusic => "插入音乐失败",
            Step::UpdateMusic => "更新音乐失败",
            Step::InsertClip => "插入片段失败",
            Step::SaveTag => "保存 Tag 失败",
            Step::SaveLink => "保存 Tag 关联失败",
            Step::CreateUncategorized => "创建未分类维度失败",
            Step::CreateTag => "创建 Tag 失败",
            Step::CreateTagCategory => "创建 Tag 分类失败",
            Step::CreateCategory => "创建分类失败",
            Step::UpdateTag => "更新 Tag 失败",
            Step::UpdateCategory => "更新筛选维度失败",
            Step::MoveTag => "移动 Tag 失败",
            Step::MoveSubtree => "同步子 Tag 维度失败",
            Step::LiftChildren => "上移子 Tag 失败",
            Step::WriteLocation => "写入同步位置失败",
            Step::SeedCategory => "初始化 Tag 分类失败",
            Step::SeedTag => "初始化预设 Tag 失败",
            Step::MigrateCategories => "迁移 Tag 维度失败",
            Step::FillCategories => "补齐 Tag 维度失败",
            Step::MigrateTags => "迁移 Tag 节点失败",
            Step::SwitchTagTables => "切换新版 Tag 表失败",
            Step::IndexTags => "建立 Tag 树索引失败",
            Step::IndexPaths => "建立音乐路径唯一索引失败",
            Step::MigrateTag => "迁移 Tag 失败",
            Step::CreateDimension => "创建 Tag 维度失败",
        }
    }
}

impl Key {
    /// What no two rows may have in common, as it is named to the user.
    pub fn text(self) -> (r: &'static str)
        ensures
            r@ == key_text(self),
    {
        match self {
            Key::MusicId => "music.id",
            Key::MusicPath => "music.path",
            Key::ClipId => "clips.id",
            Key::CategoryName => "tag_categories.name",
            Key::TagPlace => "index 'idx_tags_sibling_name'",
            Key::LegacyCategoryName => "tag_categories_v2.name",
            Key::LegacyTagId => "tags_v2.id",
        }
    }
}

impl Constraint {
    /// What is said of what keeps a row from being written.
    pub fn text(self) -> (r: String)
        ensures
            r@ == constraint_text(self),
    {
        match self {
            Constraint::Unique(key) => {
                let mut r = "UNIQUE constraint failed: ".to_string();
                r.append(key.text());
                r
            },
            Constraint::ForeignKey => "FOREIGN KEY constraint failed".to_string(),
            Constraint::Full => "database or disk is full".to_string(),
            Constraint::OutOfRange => {
                "out of range integral type conversion attempted".to_string()
            },
        }
    }
}

impl Reading {
    /// What is said of music that cannot be read.
    pub fn text(self) -> (r: String)
        ensures
            r@ == reading_text(self),
    {
        match self {
            Reading::OneMusic(column) => {
                let mut r = "查询音乐失败: Invalid column type Null at index: ".to_string();
                r.append(write_digits(column as u64).as_str());
                r.append(", name: duration");
                r
            },
            Reading::AllMusic => {
                "读取音乐失败: Invalid column type Null at index: 12, name: duration".to_string()
            },
        }
    }
}

/// What a refusal says to the user.
pub fn message(e: &LibraryError) -> (r: String)
    ensures
        r@ == message_text(e@),
{
    match e {
        Failure::Rule(rule) => rule.text().to_string(),
        Failure::NameTaken(name) => {
            let mut r = "目标位置已有同名 Tag「".to_string();
            r.append(name.as_str());
            r.append("」");
            r
        },
        Failure::Write(step, constraint) => {
            let mut r = step.text().to_string();
            r.append(": ");
            r.append(constraint.text().as_str());
            r
        },
        Failure::NoDuration(reading) => reading.text(),
        Failure::NewerSchema(v) => {
            let mut r = "数据库版本 ".to_string();
            r.append(write_number(*v).as_str());
            r.append(" 高于当前程序支持的版本 3，已停止写入");
            r
        },
    }
}

} // verus!
