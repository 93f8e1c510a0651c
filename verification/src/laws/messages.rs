//! Laws of what is said to the user.
use vstd::prelude::*;

use crate::failure::Constraint;
use crate::failure::Failure;
use crate::failure::Key;
use crate::failure::Reading;
use crate::failure::Rule;
use crate::failure::Step;
use crate::messages::decimal;
use crate::messages::key_text;
use crate::messages::message_text;
use crate::messages::rule_text;
use crate::messages::step_text;
use crate::schema::number;

verus! {

/// What is said of each rule.
pub open spec fn words_of_rules() -> Seq<(Rule, Seq<char>)> {
    seq![
        (Rule::EmptyTagName, "Tag 名称不能为空"@),
        (Rule::EmptyCategoryName, "分类名称不能为空"@),
        (Rule::EmptyAlbumName, "专辑名不能为空"@),
        (Rule::NoSuchTag, "Tag 不存在"@),
        (Rule::NoSuchParent, "父 Tag 不存在"@),
        (Rule::NoSuchCategory, "分类不存在"@),
        (Rule::CategoryNotEmpty, "非空筛选维度不能删除，请先移动或删除其中的 Tag"@),
        (Rule::ParentInOtherCategory, "父 Tag 必须属于同一筛选维度"@),
        (Rule::ChosenTagMissing, "所选 Tag 不存在"@),
        (Rule::MoveToSelf, "不能移动到自身"@),
        (Rule::MoveIntoDescendant, "不能移动到自己的后代节点"@),
        (Rule::UnknownCandidateKind, "无效的候选类型"@),
        (Rule::NoSuchCandidateTarget, "候选目标不存在"@),
        (Rule::NegativeClipStart, "片段起点不能为负数"@),
        (Rule::ClipEndsBeforeStart, "片段终点必须大于起点"@),
        (Rule::DanglingReference, "Tag 迁移后的外键校验失败"@),
        (Rule::SameLocation, "新位置与当前位置相同"@),
        (Rule::LocationOccupied, "目标位置已有数据库文件"@),
    ]
}

/// Of every rule it is said what is listed.
pub proof fn law_rules_are_told(k: int)
    requires
        0 <= k < words_of_rules().len(),
    ensures
        rule_text(words_of_rules()[k].0) == words_of_rules()[k].1,
{
}

/// What is said of each step.
pub open spec fn words_of_steps() -> Seq<(Step, Seq<char>)> {
    seq![
        (Step::InsertMusic, "插入音乐失败"@),
        (Step::UpdateMusic, "更新音乐失败"@),
        (Step::InsertClip, "插入片段失败"@),
        (Step::SaveTag, "保存 Tag 失败"@),
        (Step::SaveLink, "保存 Tag 关联失败"@),
        (Step::CreateUncategorized, "创建未分类维度失败"@),
        (Step::CreateTag, "创建 Tag 失败"@),
        (Step::CreateTagCategory, "创建 Tag 分类失败"@),
        (Step::CreateCategory, "创建分类失败"@),
        (Step::UpdateTag, "更新 Tag 失败"@),
        (Step::UpdateCategory, "更新筛选维度失败"@),
        (Step::MoveTag, "移动 Tag 失败"@),
        (Step::MoveSubtree, "同步子 Tag 维度失败"@),
        (Step::LiftChildren, "上移子 Tag 失败"@),
        (Step::WriteLocation, "写入同步位置失败"@),
        (Step::SeedCategory, "初始化 Tag 分类失败"@),
        (Step::SeedTag, "初始化预设 Tag 失败"@),
        (Step::MigrateCategories, "迁移 Tag 维度失败"@),
        (Step::FillCategories, "补齐 Tag 维度失败"@),
        (Step::MigrateTags, "迁移 Tag 节点失败"@),
        (Step::SwitchTagTables, "切换新版 Tag 表失败"@),
        (Step::IndexTags, "建立 Tag 树索引失败"@),
        (Step::IndexPaths, "建立音乐路径唯一索引失败"@),
        (Step::MigrateTag, "迁移 Tag 失败"@),
        (Step::CreateDimension, "创建 Tag 维度失败"@),
    ]
}

/// Of every step it is said what is listed.
pub proof fn law_steps_are_told(k: int)
    requires
        0 <= k < words_of_steps().len(),
    ensures
        step_text(words_of_steps()[k].0) == words_of_steps()[k].1,
{
}

/// How each key is named.
pub open spec fn words_of_keys() -> Seq<(Key, Seq<char>)> {
    seq![
        (Key::MusicId, "music.id"@),
        (Key::MusicPath, "music.path"@),
        (Key::ClipId, "clips.id"@),
        (Key::CategoryName, "tag_categories.name"@),
        (Key::TagPlace, "index 'idx_tags_sibling_name'"@),
        (Key::LegacyCategoryName, "tag_categories_v2.name"@),
        (Key::LegacyTagId, "tags_v2.id"@),
    ]
}

/// Every key is named as it is listed.
pub proof fn law_keys_are_told(k: int)
    requires
        0 <= k < words_of_keys().len(),
    ensures
        key_text(words_of_keys()[k].0) == words_of_keys()[k].1,
{
}

/// A refusal says all that is known: the name that is taken, in quotation marks; the step and
/// what kept it from being taken, with the key where there is one; the column that could not
/// be read; the number of the schema, from which it can be read back.
pub proof fn law_refusals_say_what_is_known(
    name: Seq<char>,
    rule: Rule,
    step: Step,
    key: Key,
    column: u32,
    v: i64,
)
    ensures
        message_text(Failure::Rule(rule)) == rule_text(rule),
        message_text(Failure::NameTaken(name)) == "目标位置已有同名 Tag「"@ + name + "」"@,
        message_text(Failure::Write(step, Constraint::Unique(key))) == step_text(step) + ": "@ + (
        "UNIQUE constraint failed: "@ + key_text(key)),
        message_text(Failure::Write(step, Constraint::ForeignKey)) == step_text(step) + ": "@
            + "FOREIGN KEY constraint failed"@,
        message_text(Failure::Write(step, Constraint::Full)) == step_text(step) + ": "@
            + "database or disk is full"@,
        message_text(Failure::Write(step, Constraint::OutOfRange)) == step_text(step) + ": "@
            + "out of range integral type conversion attempted"@,
        message_text(Failure::NoDuration(Reading::OneMusic(column)))
            == "查询音乐失败: Invalid column type Null at index: "@ + decimal(column as i64)
            + ", name: duration"@,
        message_text(Failure::NoDuration(Reading::AllMusic))
            == "读取音乐失败: Invalid column type Null at index: 12, name: duration"@,
        message_text(Failure::NewerSchema(v)) == "数据库版本 "@ + decimal(v)
            + " 高于当前程序支持的版本 3，已停止写入"@,
        number(decimal(v)) == Some(v),
{
    crate::messages::law_written_number_is_read_back(v);
}

} // verus!
