//! Ready-made sample projects, and picking one from the words of a request.

use vstd::prelude::*;
use crate::aoe::{
    Task, Dependency, ProjectData, AoeError, dep_views, task_ids, first_unknown, dep_edges, points_forward,
    lemma_forward_dependencies_accepted,
};
use crate::graph::has_cycle;
use crate::critical_path::CriticalPathResult;
use crate::{compute_critical_path_from_project, schedule_outcome};

verus! {

/// The id, name and three estimates of each task, in order.
pub open spec fn task_views(tasks: Seq<Task>) -> Seq<(Seq<char>, Seq<char>, i32, i32, i32)> {
    tasks.map_values(|t: Task| (t.id@, t.name@, t.duration_optimistic, t.duration_normal, t.duration_pessimistic))
}


fn task(id: &str, name: &str, optimistic: i32, normal: i32, pessimistic: i32) -> (t: Task)
    ensures
        t.id@ == id@,
        t.name@ == name@,
        t.duration_optimistic == optimistic,
        t.duration_normal == normal,
        t.duration_pessimistic == pessimistic,
{
    Task {
        id: String::from_str(id),
        name: String::from_str(name),
        duration_optimistic: optimistic,
        duration_normal: normal,
        duration_pessimistic: pessimistic,
    }
}

fn dep(from: &str, to: &str) -> (d: Dependency)
    ensures
        d.from@ == from@,
        d.to@ == to@,
{
    Dependency { from: String::from_str(from), to: String::from_str(to) }
}

/// The tasks of the online shop sample, estimates in milli-days.
pub open spec fn mall_task_list() -> Seq<(Seq<char>, Seq<char>, i32, i32, i32)> {
    seq![
        ("T1"@, "需求分析"@, 1000i32, 2000i32, 4000i32),
        ("T2"@, "技术选型"@, 1000i32, 2000i32, 3000i32),
        ("T3"@, "数据库设计"@, 2000i32, 3000i32, 5000i32),
        ("T4"@, "用户系统"@, 3000i32, 5000i32, 8000i32),
        ("T5"@, "商品管理"@, 3000i32, 5000i32, 8000i32),
        ("T6"@, "购物车"@, 2000i32, 4000i32, 6000i32),
        ("T7"@, "订单系统"@, 3000i32, 5000i32, 8000i32),
        ("T8"@, "支付集成"@, 2000i32, 4000i32, 7000i32),
        ("T9"@, "前端页面"@, 4000i32, 7000i32, 10000i32),
        ("T10"@, "测试"@, 2000i32, 3000i32, 5000i32),
        ("T11"@, "部署上线"@, 1000i32, 2000i32, 3000i32),
    ]
}

/// The dependencies of the online shop sample.
pub open spec fn mall_dep_list() -> Seq<(Seq<char>, Seq<char>)> {
    seq![
        ("T1"@, "T2"@),
        ("T2"@, "T3"@),
        ("T3"@, "T4"@),
        ("T3"@, "T5"@),
        ("T4"@, "T7"@),
        ("T5"@, "T6"@),
        ("T5"@, "T7"@),
        ("T6"@, "T8"@),
        ("T7"@, "T9"@),
        ("T8"@, "T9"@),
        ("T4"@, "T10"@),
        ("T5"@, "T10"@),
        ("T9"@, "T11"@),
        ("T10"@, "T11"@),
    ]
}

/// The tasks of the online shop sample.
pub fn make_mall_tasks() -> (r: Vec<Task>)
    ensures
        task_views(r@) == mall_task_list(),
{
    let mut v: Vec<Task> = Vec::new();
    v.push(task("T1", "需求分析", 1000, 2000, 4000));
    v.push(task("T2", "技术选型", 1000, 2000, 3000));
    v.push(task("T3", "数据库设计", 2000, 3000, 5000));
    v.push(task("T4", "用户系统", 3000, 5000, 8000));
    v.push(task("T5", "商品管理", 3000, 5000, 8000));
    v.push(task("T6", "购物车", 2000, 4000, 6000));
    v.push(task("T7", "订单系统", 3000, 5000, 8000));
    v.push(task("T8", "支付集成", 2000, 4000, 7000));
    v.push(task("T9", "前端页面", 4000, 7000, 10000));
    v.push(task("T10", "测试", 2000, 3000, 5000));
    v.push(task("T11", "部署上线", 1000, 2000, 3000));
    proof {
        assert(task_views(v@) =~= mall_task_list());
    }
    v
}

/// The dependencies of the online shop sample.
pub fn make_mall_deps() -> (r: Vec<Dependency>)
    ensures
        dep_views(r@) == mall_dep_list(),
{
    let mut v: Vec<Dependency> = Vec::new();
    v.push(dep("T1", "T2"));
    v.push(dep("T2", "T3"));
    v.push(dep("T3", "T4"));
    v.push(dep("T3", "T5"));
    v.push(dep("T4", "T7"));
    v.push(dep("T5", "T6"));
    v.push(dep("T5", "T7"));
    v.push(dep("T6", "T8"));
    v.push(dep("T7", "T9"));
    v.push(dep("T8", "T9"));
    v.push(dep("T4", "T10"));
    v.push(dep("T5", "T10"));
    v.push(dep("T9", "T11"));
    v.push(dep("T10", "T11"));
    proof {
        assert(dep_views(v@) =~= mall_dep_list());
    }
    v
}

/// The tasks of the blog and content management sample, estimates in milli-days.
pub open spec fn blog_task_list() -> Seq<(Seq<char>, Seq<char>, i32, i32, i32)> {
    seq![
        ("T1"@, "需求分析"@, 1000i32, 2000i32, 3000i32),
        ("T2"@, "数据库设计"@, 1000i32, 2000i32, 4000i32),
        ("T3"@, "用户认证"@, 2000i32, 3000i32, 5000i32),
        ("T4"@, "文章管理"@, 3000i32, 5000i32, 7000i32),
        ("T5"@, "评论系统"@, 2000i32, 3000i32, 5000i32),
        ("T6"@, "分类标签"@, 1000i32, 2000i32, 3000i32),
        ("T7"@, "搜索功能"@, 2000i32, 3000i32, 5000i32),
        ("T8"@, "管理后台"@, 3000i32, 5000i32, 8000i32),
        ("T9"@, "前端展示"@, 3000i32, 5000i32, 7000i32),
        ("T10"@, "部署"@, 1000i32, 2000i32, 3000i32),
    ]
}

/// The dependencies of the blog and content management sample.
pub open spec fn blog_dep_list() -> Seq<(Seq<char>, Seq<char>)> {
    seq![
        ("T1"@, "T2"@),
        ("T2"@, "T3"@),
        ("T2"@, "T4"@),
        ("T2"@, "T6"@),
        ("T3"@, "T8"@),
        ("T4"@, "T5"@),
        ("T4"@, "T7"@),
        ("T4"@, "T9"@),
        ("T6"@, "T9"@),
        ("T5"@, "T8"@),
        ("T7"@, "T10"@),
        ("T8"@, "T10"@),
        ("T9"@, "T10"@),
    ]
}

/// The tasks of the blog and content management sample.
pub fn make_blog_tasks() -> (r: Vec<Task>)
    ensures
        task_views(r@) == blog_task_list(),
{
    let mut v: Vec<Task> = Vec::new();
    v.push(task("T1", "需求分析", 1000, 2000, 3000));
    v.push(task("T2", "数据库设计", 1000, 2000, 4000));
    v.push(task("T3", "用户认证", 2000, 3000, 5000));
    v.push(task("T4", "文章管理", 3000, 5000, 7000));
    v.push(task("T5", "评论系统", 2000, 3000, 5000));
    v.push(task("T6", "分类标签", 1000, 2000, 3000));
    v.push(task("T7", "搜索功能", 2000, 3000, 5000));
    v.push(task("T8", "管理后台", 3000, 5000, 8000));
    v.push(task("T9", "前端展示", 3000, 5000, 7000));
    v.push(task("T10", "部署", 1000, 2000, 3000));
    proof {
        assert(task_views(v@) =~= blog_task_list());
    }
    v
}

/// The dependencies of the blog and content management sample.
pub fn make_blog_deps() -> (r: Vec<Dependency>)
    ensures
        dep_views(r@) == blog_dep_list(),
{
    let mut v: Vec<Dependency> = Vec::new();
    v.push(dep("T1", "T2"));
    v.push(dep("T2", "T3"));
    v.push(dep("T2", "T4"));
    v.push(dep("T2", "T6"));
    v.push(dep("T3", "T8"));
    v.push(dep("T4", "T5"));
    v.push(dep("T4", "T7"));
    v.push(dep("T4", "T9"));
    v.push(dep("T6", "T9"));
    v.push(dep("T5", "T8"));
    v.push(dep("T7", "T10"));
    v.push(dep("T8", "T10"));
    v.push(dep("T9", "T10"));
    proof {
        assert(dep_views(v@) =~= blog_dep_list());
    }
    v
}

/// The tasks of the back office sample, estimates in milli-days.
pub open spec fn admin_task_list() -> Seq<(Seq<char>, Seq<char>, i32, i32, i32)> {
    seq![
        ("T1"@, "需求分析"@, 1000i32, 2000i32, 3000i32),
        ("T2"@, "权限系统"@, 2000i32, 3000i32, 5000i32),
        ("T3"@, "数据表设计"@, 1000i32, 2000i32, 4000i32),
        ("T4"@, "CRUD生成"@, 3000i32, 5000i32, 7000i32),
        ("T5"@, "数据可视化"@, 2000i32, 4000i32, 6000i32),
        ("T6"@, "文件管理"@, 2000i32, 3000i32, 4000i32),
        ("T7"@, "日志审计"@, 2000i32, 3000i32, 5000i32),
        ("T8"@, "搜索筛选"@, 2000i32, 3000i32, 4000i32),
        ("T9"@, "前端框架"@, 3000i32, 5000i32, 7000i32),
        ("T10"@, "部署"@, 1000i32, 2000i32, 3000i32),
    ]
}

/// The dependencies of the back office sample.
pub open spec fn admin_dep_list() -> Seq<(Seq<char>, Seq<char>)> {
    seq![
        ("T1"@, "T2"@),
        ("T1"@, "T3"@),
        ("T3"@, "T4"@),
        ("T2"@, "T4"@),
        ("T4"@, "T6"@),
        ("T4"@, "T7"@),
        ("T4"@, "T8"@),
        ("T2"@, "T7"@),
        ("T5"@, "T9"@),
        ("T4"@, "T9"@),
        ("T6"@, "T10"@),
        ("T8"@, "T10"@),
        ("T9"@, "T10"@),
    ]
}

/// The tasks of the back office sample.
pub fn make_admin_tasks() -> (r: Vec<Task>)
    ensures
        task_views(r@) == admin_task_list(),
{
    let mut v: Vec<Task> = Vec::new();
    v.push(task("T1", "需求分析", 1000, 2000, 3000));
    v.push(task("T2", "权限系统", 2000, 3000, 5000));
    v.push(task("T3", "数据表设计", 1000, 2000, 4000));
    v.push(task("T4", "CRUD生成", 3000, 5000, 7000));
    v.push(task("T5", "数据可视化", 2000, 4000, 6000));
    v.push(task("T6", "文件管理", 2000, 3000, 4000));
    v.push(task("T7", "日志审计", 2000, 3000, 5000));
    v.push(task("T8", "搜索筛选", 2000, 3000, 4000));
    v.push(task("T9", "前端框架", 3000, 5000, 7000));
    v.push(task("T10", "部署", 1000, 2000, 3000));
    proof {
        assert(task_views(v@) =~= admin_task_list());
    }
    v
}

/// The dependencies of the back office sample.
pub fn make_admin_deps() -> (r: Vec<Dependency>)
    ensures
        dep_views(r@) == admin_dep_list(),
{
    let mut v: Vec<Dependency> = Vec::new();
    v.push(dep("T1", "T2"));
    v.push(dep("T1", "T3"));
    v.push(dep("T3", "T4"));
    v.push(dep("T2", "T4"));
    v.push(dep("T4", "T6"));
    v.push(dep("T4", "T7"));
    v.push(dep("T4", "T8"));
    v.push(dep("T2", "T7"));
    v.push(dep("T5", "T9"));
    v.push(dep("T4", "T9"));
    v.push(dep("T6", "T10"));
    v.push(dep("T8", "T10"));
    v.push(dep("T9", "T10"));
    proof {
        assert(dep_views(v@) =~= admin_dep_list());
    }
    v
}

/// The tasks of the general software sample, estimates in milli-days.
pub open spec fn default_task_list() -> Seq<(Seq<char>, Seq<char>, i32, i32, i32)> {
    seq![
        ("T1"@, "需求分析与评审"@, 1000i32, 2000i32, 4000i32),
        ("T2"@, "系统架构设计"@, 2000i32, 3000i32, 5000i32),
        ("T3"@, "设计数据库"@, 2000i32, 3000i32, 5000i32),
        ("T4"@, "搭建容器化开发环境"@, 1000i32, 2000i32, 3000i32),
        ("T5"@, "写后端"@, 3000i32, 5000i32, 8000i32),
        ("T6"@, "写前端"@, 3000i32, 4000i32, 7000i32),
        ("T7"@, "编写API文档"@, 1000i32, 2000i32, 3000i32),
        ("T8"@, "前后端联调测试"@, 2000i32, 4000i32, 6000i32),
        ("T9"@, "性能压测与Bug修复"@, 1000i32, 2000i32, 4000i32),
        ("T10"@, "生产环境部署上线"@, 1000i32, 1000i32, 2000i32),
    ]
}

/// The dependencies of the general software sample.
pub open spec fn default_dep_list() -> Seq<(Seq<char>, Seq<char>)> {
    seq![
        ("T1"@, "T2"@),
        ("T2"@, "T3"@),
        ("T2"@, "T4"@),
        ("T2"@, "T6"@),
        ("T3"@, "T5"@),
        ("T4"@, "T5"@),
        ("T5"@, "T7"@),
        ("T5"@, "T8"@),
        ("T6"@, "T8"@),
        ("T8"@, "T9"@),
        ("T7"@, "T10"@),
        ("T9"@, "T10"@),
    ]
}

/// The tasks of the general software sample.
pub fn make_default_tasks() -> (r: Vec<Task>)
    ensures
        task_views(r@) == default_task_list(),
{
    let mut v: Vec<Task> = Vec::new();
    v.push(task("T1", "需求分析与评审", 1000, 2000, 4000));
    v.push(task("T2", "系统架构设计", 2000, 3000, 5000));
    v.push(task("T3", "设计数据库", 2000, 3000, 5000));
    v.push(task("T4", "搭建容器化开发环境", 1000, 2000, 3000));
    v.push(task("T5", "写后端", 3000, 5000, 8000));
    v.push(task("T6", "写前端", 3000, 4000, 7000));
    v.push(task("T7", "编写API文档", 1000, 2000, 3000));
    v.push(task("T8", "前后端联调测试", 2000, 4000, 6000));
    v.push(task("T9", "性能压测与Bug修复", 1000, 2000, 4000));
    v.push(task("T10", "生产环境部署上线", 1000, 1000, 2000));
    proof {
        assert(task_views(v@) =~= default_task_list());
    }
    v
}

/// The dependencies of the general software sample.
pub fn make_default_deps() -> (r: Vec<Dependency>)
    ensures
        dep_views(r@) == default_dep_list(),
{
    let mut v: Vec<Dependency> = Vec::new();
    v.push(dep("T1", "T2"));
    v.push(dep("T2", "T3"));
    v.push(dep("T2", "T4"));
    v.push(dep("T2", "T6"));
    v.push(dep("T3", "T5"));
    v.push(dep("T4", "T5"));
    v.push(dep("T5", "T7"));
    v.push(dep("T5", "T8"));
    v.push(dep("T6", "T8"));
    v.push(dep("T8", "T9"));
    v.push(dep("T7", "T10"));
    v.push(dep("T9", "T10"));
    proof {
        assert(dep_views(v@) =~= default_dep_list());
    }
    v
}


/// What `str::to_lowercase` returns for a string: its characters mapped to
/// lower case by the Unicode tables of the standard library.
pub uninterp spec fn spec_to_lowercase(s: Seq<char>) -> Seq<char>;

/// Wraps `str::to_lowercase`, whose result depends on its argument alone.
#[verifier::external_body]
fn str_to_lowercase(s: &str) -> (r: String)
    ensures
        r@ == spec_to_lowercase(s@),
{
    s.to_lowercase()
}

/// `needle` occurs in `text` as a run of consecutive characters.
pub open spec fn is_substring(needle: Seq<char>, text: Seq<char>) -> bool {
    exists|i: int| 0 <= i && i + needle.len() <= text.len() && #[trigger] text.subrange(i, i + needle.len()) == needle
}

/// Wraps `str::contains` with a string pattern, which the documentation
/// describes as: the pattern matches a sub-slice of the string.
#[verifier::external_body]
fn str_contains(text: &str, needle: &str) -> (r: bool)
    ensures
        r == is_substring(needle@, text@),
{
    text.contains(needle)
}

/// The kind of sample project that a request asks for.
#[derive(Debug, Clone, Copy, PartialEq, Eq)]
pub enum ProjectKind {
    Mall,
    Blog,
    Admin,
    General,
}

/// A request in lower case asks for an online shop.
pub open spec fn mentions_mall(t: Seq<char>) -> bool {
    is_substring("商城"@, t) || is_substring("电商"@, t) || is_substring("购物"@, t) || is_substring("商店"@, t)
        || is_substring("shop"@, t) || is_substring("store"@, t) || is_substring("ecommerce"@, t)
}

/// A request in lower case asks for a blog or content management system.
pub open spec fn mentions_blog(t: Seq<char>) -> bool {
    is_substring("博客"@, t) || is_substring("blog"@, t) || is_substring("cms"@, t) || is_substring("内容管理"@, t)
        || is_substring("content"@, t)
}

/// A request in lower case asks for an administration back office.
pub open spec fn mentions_admin(t: Seq<char>) -> bool {
    is_substring("后台"@, t) || is_substring("admin"@, t) || is_substring("管理系统"@, t) || is_substring("dashboard"@, t)
}

/// The sample that a request picks, by the keywords of its lower-case form
/// and in this order: shop, blog, back office, and otherwise a general one.
pub open spec fn spec_project_kind(input: Seq<char>) -> ProjectKind {
    let lower = spec_to_lowercase(input);
    if mentions_mall(lower) {
        ProjectKind::Mall
    } else if mentions_blog(lower) {
        ProjectKind::Blog
    } else if mentions_admin(lower) {
        ProjectKind::Admin
    } else {
        ProjectKind::General
    }
}

/// The keywords that ask for an online shop.
pub open spec fn shop_words() -> Seq<Seq<char>> {
    seq!["商城"@, "电商"@, "购物"@, "商店"@, "shop"@, "store"@, "ecommerce"@]
}

/// The keywords that ask for a blog or content management system.
pub open spec fn blog_words() -> Seq<Seq<char>> {
    seq!["博客"@, "blog"@, "cms"@, "内容管理"@, "content"@]
}

/// The keywords that ask for an administration back office.
pub open spec fn admin_words() -> Seq<Seq<char>> {
    seq!["后台"@, "admin"@, "管理系统"@, "dashboard"@]
}

/// Some word of `words` occurs in `text`.
pub open spec fn mentions_any(words: Seq<Seq<char>>, text: Seq<char>) -> bool {
    exists|k: int| 0 <= k < words.len() && is_substring(#[trigger] words[k], text)
}

/// A request picks a sample by the keywords in its lower-case form: any shop
/// keyword picks the online shop; otherwise any blog keyword picks the blog;
/// otherwise any back office keyword picks the back office; a request with
/// none of them picks the general software sample.
pub proof fn lemma_request_keywords(input: Seq<char>)
    ensures
        mentions_any(shop_words(), spec_to_lowercase(input)) ==> spec_project_kind(input) == ProjectKind::Mall,
        !mentions_any(shop_words(), spec_to_lowercase(input)) && mentions_any(blog_words(), spec_to_lowercase(input))
            ==> spec_project_kind(input) == ProjectKind::Blog,
        !mentions_any(shop_words(), spec_to_lowercase(input)) && !mentions_any(blog_words(), spec_to_lowercase(input))
            && mentions_any(admin_words(), spec_to_lowercase(input)) ==> spec_project_kind(input) == ProjectKind::Admin,
        !mentions_any(shop_words(), spec_to_lowercase(input)) && !mentions_any(blog_words(), spec_to_lowercase(input))
            && !mentions_any(admin_words(), spec_to_lowercase(input)) ==> spec_project_kind(input) == ProjectKind::General,
{
    let t = spec_to_lowercase(input);
    let sw = shop_words();
    let bw = blog_words();
    let aw = admin_words();
    assert(sw[0] == "商城"@ && sw[1] == "电商"@ && sw[2] == "购物"@ && sw[3] == "商店"@ && sw[4] == "shop"@
        && sw[5] == "store"@ && sw[6] == "ecommerce"@);
    assert(bw[0] == "博客"@ && bw[1] == "blog"@ && bw[2] == "cms"@ && bw[3] == "内容管理"@ && bw[4] == "content"@);
    assert(aw[0] == "后台"@ && aw[1] == "admin"@ && aw[2] == "管理系统"@ && aw[3] == "dashboard"@);
    if mentions_any(sw, t) {
        let k = choose|k: int| 0 <= k < sw.len() && is_substring(#[trigger] sw[k], t);
        assert(k == 0 || k == 1 || k == 2 || k == 3 || k == 4 || k == 5 || k == 6);
        assert(mentions_mall(t));
    } else {
        assert(!is_substring(sw[0], t) && !is_substring(sw[1], t) && !is_substring(sw[2], t) && !is_substring(sw[3], t)
            && !is_substring(sw[4], t) && !is_substring(sw[5], t) && !is_substring(sw[6], t));
        assert(!mentions_mall(t));
    }
    if mentions_any(bw, t) {
        let k = choose|k: int| 0 <= k < bw.len() && is_substring(#[trigger] bw[k], t);
        assert(k == 0 || k == 1 || k == 2 || k == 3 || k == 4);
        assert(mentions_blog(t));
    } else {
        assert(!is_substring(bw[0], t) && !is_substring(bw[1], t) && !is_substring(bw[2], t) && !is_substring(bw[3], t)
            && !is_substring(bw[4], t));
        assert(!mentions_blog(t));
    }
    if mentions_any(aw, t) {
        let k = choose|k: int| 0 <= k < aw.len() && is_substring(#[trigger] aw[k], t);
        assert(k == 0 || k == 1 || k == 2 || k == 3);
        assert(mentions_admin(t));
    } else {
        assert(!is_substring(aw[0], t) && !is_substring(aw[1], t) && !is_substring(aw[2], t) && !is_substring(aw[3], t));
        assert(!mentions_admin(t));
    }
}

/// The sample that a request picks; see `spec_project_kind`.
pub fn project_kind(input: &str) -> (k: ProjectKind)
    ensures
        k == spec_project_kind(input@),
{
    let lower = str_to_lowercase(input);
    let t = lower.as_str();
    if str_contains(t, "商城") || str_contains(t, "电商") || str_contains(t, "购物") || str_contains(t, "商店")
        || str_contains(t, "shop") || str_contains(t, "store") || str_contains(t, "ecommerce") {
        ProjectKind::Mall
    } else if str_contains(t, "博客") || str_contains(t, "blog") || str_contains(t, "cms") || str_contains(t, "内容管理")
        || str_contains(t, "content") {
        ProjectKind::Blog
    } else if str_contains(t, "后台") || str_contains(t, "admin") || str_contains(t, "管理系统") || str_contains(t, "dashboard") {
        ProjectKind::Admin
    } else {
        ProjectKind::General
    }
}

impl ProjectKind {
    /// The name under which the kind of project is reported.
    pub fn name(&self) -> (r: &'static str)
        ensures
            r@ == match *self {
                ProjectKind::Mall => "商城系统"@,
                ProjectKind::Blog => "博客/CMS系统"@,
                ProjectKind::Admin => "后台管理系统"@,
                ProjectKind::General => "通用软件项目"@,
            },
    {
        match self {
            ProjectKind::Mall => "商城系统",
            ProjectKind::Blog => "博客/CMS系统",
            ProjectKind::Admin => "后台管理系统",
            ProjectKind::General => "通用软件项目",
        }
    }
}

/// The tasks and dependencies of the sample of a kind.
pub open spec fn sample_lists(k: ProjectKind) -> (Seq<(Seq<char>, Seq<char>, i32, i32, i32)>, Seq<(Seq<char>, Seq<char>)>) {
    match k {
        ProjectKind::Mall => (mall_task_list(), mall_dep_list()),
        ProjectKind::Blog => (blog_task_list(), blog_dep_list()),
        ProjectKind::Admin => (admin_task_list(), admin_dep_list()),
        ProjectKind::General => (default_task_list(), default_dep_list()),
    }
}

proof fn lemma_numbered_ids_distinct()
    ensures
        seq!["T1"@, "T2"@, "T3"@, "T4"@, "T5"@, "T6"@, "T7"@, "T8"@, "T9"@, "T10"@, "T11"@].no_duplicates(),
        seq!["T1"@, "T2"@, "T3"@, "T4"@, "T5"@, "T6"@, "T7"@, "T8"@, "T9"@, "T10"@].no_duplicates(),
{
    reveal_strlit("T1");
    reveal_strlit("T2");
    reveal_strlit("T3");
    reveal_strlit("T4");
    reveal_strlit("T5");
    reveal_strlit("T6");
    reveal_strlit("T7");
    reveal_strlit("T8");
    reveal_strlit("T9");
    reveal_strlit("T10");
    reveal_strlit("T11");
    let s = seq!["T1"@, "T2"@, "T3"@, "T4"@, "T5"@, "T6"@, "T7"@, "T8"@, "T9"@, "T10"@, "T11"@];
    assert forall|i: int, j: int| 0 <= i < s.len() && 0 <= j < s.len() && i != j implies s[i] != s[j] by {
        assert(i == 0 || i == 1 || i == 2 || i == 3 || i == 4 || i == 5 || i == 6 || i == 7 || i == 8 || i == 9 || i == 10);
        assert(j == 0 || j == 1 || j == 2 || j == 3 || j == 4 || j == 5 || j == 6 || j == 7 || j == 8 || j == 9 || j == 10);
        assert(s[i].len() != s[j].len() || s[i].last() != s[j].last());
    }
    assert(seq!["T1"@, "T2"@, "T3"@, "T4"@, "T5"@, "T6"@, "T7"@, "T8"@, "T9"@, "T10"@] =~= s.drop_last());
}

/// The first `k` dependency views have their two ends at the positions
/// that `pos` gives in `ids`, the source before the target.
pub open spec fn ends_at(ids: Seq<Seq<char>>, dv: Seq<(Seq<char>, Seq<char>)>, pos: Seq<(int, int)>, k: int) -> bool
    decreases k,
{
    k <= 0 || {
        let (i, j) = pos[k - 1];
        &&& 0 <= i < j < ids.len()
        &&& ids[i] == dv[k - 1].0
        &&& ids[j] == dv[k - 1].1
        &&& ends_at(ids, dv, pos, k - 1)
    }
}

proof fn lemma_ends_at(ids: Seq<Seq<char>>, deps: Seq<Dependency>, pos: Seq<(int, int)>, k: int)
    requires
        0 <= k <= deps.len(),
        ends_at(ids, dep_views(deps), pos, k),
    ensures
        forall|m: int| 0 <= m < k ==> points_forward(ids, #[trigger] deps[m]),
    decreases k,
{
    if k > 0 {
        lemma_ends_at(ids, deps, pos, k - 1);
        let (i, j) = pos[k - 1];
        assert(dep_views(deps)[k - 1] == (deps[k - 1].from@, deps[k - 1].to@));
        assert(ids[i] == deps[k - 1].from@ && ids[j] == deps[k - 1].to@);
        assert(points_forward(ids, deps[k - 1]));
    }
}

/// Every sample project is accepted: its dependencies name tasks of the
/// sample and form no cycle, so scheduling it succeeds.
pub proof fn lemma_sample_accepted(k: ProjectKind, tasks: Seq<Task>, deps: Seq<Dependency>)
    requires
        task_views(tasks) == sample_lists(k).0,
        dep_views(deps) == sample_lists(k).1,
    ensures
        first_unknown(task_ids(tasks), deps) is None,
        !has_cycle(dep_edges(task_ids(tasks), deps)),
{
    let ids = task_ids(tasks);
    assert(ids.len() == tasks.len() && tasks.len() == task_views(tasks).len());
    assert(deps.len() == dep_views(deps).len());
    assert forall|i: int| 0 <= i < tasks.len() implies ids[i] == (#[trigger] task_views(tasks)[i]).0 by {}
    let pos = match k {
        ProjectKind::Mall => seq![(0, 1), (1, 2), (2, 3), (2, 4), (3, 6), (4, 5), (4, 6), (5, 7), (6, 8), (7, 8), (3, 9), (4, 9), (8, 10), (9, 10)],
        ProjectKind::Blog => seq![(0, 1), (1, 2), (1, 3), (1, 5), (2, 7), (3, 4), (3, 6), (3, 8), (5, 8), (4, 7), (6, 9), (7, 9), (8, 9)],
        ProjectKind::Admin => seq![(0, 1), (0, 2), (2, 3), (1, 3), (3, 5), (3, 6), (3, 7), (1, 6), (4, 8), (3, 8), (5, 9), (7, 9), (8, 9)],
        ProjectKind::General => seq![(0, 1), (1, 2), (1, 3), (1, 5), (2, 4), (3, 4), (4, 6), (4, 7), (5, 7), (7, 8), (6, 9), (8, 9)],
    };
    match k {
        ProjectKind::Mall => {
            assert(task_views(tasks) == mall_task_list() && dep_views(deps) == mall_dep_list());
            assert(ids =~= seq!["T1"@, "T2"@, "T3"@, "T4"@, "T5"@, "T6"@, "T7"@, "T8"@, "T9"@, "T10"@, "T11"@]);
        },
        ProjectKind::Blog => {
            assert(task_views(tasks) == blog_task_list() && dep_views(deps) == blog_dep_list());
            assert(ids =~= seq!["T1"@, "T2"@, "T3"@, "T4"@, "T5"@, "T6"@, "T7"@, "T8"@, "T9"@, "T10"@]);
        },
        ProjectKind::Admin => {
            assert(task_views(tasks) == admin_task_list() && dep_views(deps) == admin_dep_list());
            assert(ids =~= seq!["T1"@, "T2"@, "T3"@, "T4"@, "T5"@, "T6"@, "T7"@, "T8"@, "T9"@, "T10"@]);
        },
        ProjectKind::General => {
            assert(task_views(tasks) == default_task_list() && dep_views(deps) == default_dep_list());
            assert(ids =~= seq!["T1"@, "T2"@, "T3"@, "T4"@, "T5"@, "T6"@, "T7"@, "T8"@, "T9"@, "T10"@]);
        },
    }
    assert(ends_at(ids, dep_views(deps), pos, deps.len() as int)) by {
        reveal_with_fuel(ends_at, 15);
    }
    lemma_ends_at(ids, deps, pos, deps.len() as int);
    lemma_numbered_ids_distinct();
    lemma_forward_dependencies_accepted(ids, deps);
}

/// Picks the sample project that the request asks for and schedules it:
/// the kind, the project, and the outcome of scheduling it, which is always
/// a schedule (see `lemma_sample_accepted`).
pub fn generate_mock_project(input: &str) -> (r: (ProjectKind, ProjectData, Result<CriticalPathResult, AoeError>))
    ensures
        r.0 == spec_project_kind(input@),
        task_views(r.1.tasks@) == sample_lists(r.0).0,
        dep_views(r.1.dependencies@) == sample_lists(r.0).1,
        schedule_outcome(r.1.tasks@, r.1.dependencies@, r.2),
        r.2 is Ok,
{
    let kind = project_kind(input);
    let (tasks, dependencies) = match kind {
        ProjectKind::Mall => (make_mall_tasks(), make_mall_deps()),
        ProjectKind::Blog => (make_blog_tasks(), make_blog_deps()),
        ProjectKind::Admin => (make_admin_tasks(), make_admin_deps()),
        ProjectKind::General => (make_default_tasks(), make_default_deps()),
    };
    let data = ProjectData { tasks, dependencies };
    proof {
        assert(data.tasks@.len() == task_views(data.tasks@).len());
        assert(data.dependencies@.len() == dep_views(data.dependencies@).len());
    }
    proof {
        lemma_sample_accepted(kind, data.tasks@, data.dependencies@);
    }
    let result = compute_critical_path_from_project(data.copy());
    (kind, data, result)
}

} // verus!
