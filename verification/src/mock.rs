//! Sample data for development and tests: a fixed list of applications
//! and a simple name search over it that forgives one mistyped letter.
use vstd::prelude::*;

use crate::app_data_object::{opt_view, AppDataObject};
use crate::text::{chars_of, lowercase, to_lowercase};

verus! {

/// Number of sample applications.
pub open spec fn mock_len() -> int {
    7
}

/// Name, icon, command line and comment of sample application `i`.
pub open spec fn mock_row(i: int) -> (Seq<char>, Seq<char>, Seq<char>, Seq<char>) {
    if i == 0 {
        (
            "GIMP"@,
            "/home/zhoujing/Applications/icons/gimp.png"@,
            "/home/zhoujing/Applications/GIMP-3.2.4-x86_64.AppImage"@,
            "开源的图形处理程序"@,
        )
    } else if i == 1 {
        (
            "Krita"@,
            "/home/zhoujing/Applications/icons/krita.svg"@,
            "env QT_QPA_PLATFORM=wayland krita"@,
            "自由开源的数字绘画程序"@,
        )
    } else if i == 2 {
        (
            "Deepseek"@,
            "/home/zhoujing/Applications/icons/deepseek.svg"@,
            "xdg-open https://chat.deepseek.com/"@,
            "探索未知。立即开始"@,
        )
    } else if i == 3 {
        (
            "ChatGpt"@,
            "/home/zhoujing/Applications/icons/chatgpt.png"@,
            "xdg-open https://chatgpt.com/"@,
            "随时随地快速获取答案——ChatGPT可以帮助您寻找书籍推荐、诗歌创作或旅行计划。亲自体验一下吧！"@,
        )
    } else if i == 4 {
        (
            "AnotherRedis"@,
            "/home/zhoujing/Applications/icons/AnotherRedis.png"@,
            "/home/zhoujing/Applications/Another-Redis-Desktop-Manager-linux-1.7.1-x86_64.AppImage --no-sandbox"@,
            "Redis可视化工具"@,
        )
    } else if i == 5 {
        (
            "QqMusic"@,
            "/home/zhoujing/Applications/icons/QqMusic.svg"@,
            "/home/zhoujing/Applications/qqmusic-1.1.8.AppImage --no-sandbox"@,
            "QQ音乐"@,
        )
    } else {
        (
            "BambuStudio"@,
            "/home/zhoujing/Applications/icons/BambuStudio.png"@,
            "/home/zhoujing/Applications/BambuStudio_ubuntu-24.04-v02.07.01.57-20260601192128.AppImage"@,
            "拓竹3D打印控制程序"@,
        )
    }
}

/// `row` is sample application `i` (no desktop file).
pub open spec fn is_mock_row(row: AppDataObject, i: int) -> bool {
    &&& opt_view(row.name) == Some(mock_row(i).0)
    &&& opt_view(row.icon) == Some(mock_row(i).1)
    &&& opt_view(row.exec_cmd) == Some(mock_row(i).2)
    &&& opt_view(row.comment) == Some(mock_row(i).3)
    &&& row.desktop_file is None
}

/// A sample row.
fn mock_app(name: &str, icon: &str, exec_cmd: &str, comment: &str) -> (r: AppDataObject)
    ensures
        opt_view(r.name) == Some(name@),
        opt_view(r.icon) == Some(icon@),
        opt_view(r.exec_cmd) == Some(exec_cmd@),
        opt_view(r.comment) == Some(comment@),
        r.desktop_file is None,
{
    AppDataObject {
        name: Some(name.to_owned()),
        desktop_file: None,
        icon: Some(icon.to_owned()),
        comment: Some(comment.to_owned()),
        exec_cmd: Some(exec_cmd.to_owned()),
    }
}

/// The sample applications.
pub fn mock_app_list() -> (r: Vec<AppDataObject>)
    ensures
        r@.len() == mock_len(),
        forall|i: int| 0 <= i < mock_len() ==> is_mock_row(#[trigger] r@[i], i),
{
    let mut r: Vec<AppDataObject> = Vec::new();
    r.push(
        mock_app(
            "GIMP",
            "/home/zhoujing/Applications/icons/gimp.png",
            "/home/zhoujing/Applications/GIMP-3.2.4-x86_64.AppImage",
            "开源的图形处理程序",
        ),
    );
    r.push(
        mock_app(
            "Krita",
            "/home/zhoujing/Applications/icons/krita.svg",
            "env QT_QPA_PLATFORM=wayland krita",
            "自由开源的数字绘画程序",
        ),
    );
    r.push(
        mock_app(
            "Deepseek",
            "/home/zhoujing/Applications/icons/deepseek.svg",
            "xdg-open https://chat.deepseek.com/",
            "探索未知。立即开始",
        ),
    );
    r.push(
        mock_app(
            "ChatGpt",
            "/home/zhoujing/Applications/icons/chatgpt.png",
            "xdg-open https://chatgpt.com/",
            "随时随地快速获取答案——ChatGPT可以帮助您寻找书籍推荐、诗歌创作或旅行计划。亲自体验一下吧！",
        ),
    );
    r.push(
        mock_app(
            "AnotherRedis",
            "/home/zhoujing/Applications/icons/AnotherRedis.png",
            "/home/zhoujing/Applications/Another-Redis-Desktop-Manager-linux-1.7.1-x86_64.AppImage --no-sandbox",
            "Redis可视化工具",
        ),
    );
    r.push(
        mock_app(
            "QqMusic",
            "/home/zhoujing/Applications/icons/QqMusic.svg",
            "/home/zhoujing/Applications/qqmusic-1.1.8.AppImage --no-sandbox",
            "QQ音乐",
        ),
    );
    r.push(
        mock_app(
            "BambuStudio",
            "/home/zhoujing/Applications/icons/BambuStudio.png",
            "/home/zhoujing/Applications/BambuStudio_ubuntu-24.04-v02.07.01.57-20260601192128.AppImage",
            "拓竹3D打印控制程序",
        ),
    );
    r
}

/// `p` stands in `s` at position `j`, forgiving one mistyped inner
/// character: the stretch of `s` there is as long as `p`, has `p`'s first
/// and last characters, and differs from `p` in at most one other place.
pub open spec fn near_at(s: Seq<char>, p: Seq<char>, j: int) -> bool {
    &&& 0 <= j && j + p.len() <= s.len()
    &&& p.len() > 0 ==> s[j] == p[0] && s[j + p.len() - 1] == p[p.len() - 1]
    &&& forall|a: int, b: int|
        0 < a < p.len() - 1 && 0 < b < p.len() - 1 && s[j + a] != #[trigger] p[a] && s[j + b]
            != #[trigger] p[b] ==> a == b
}

/// `p` stands somewhere in `s`, forgiving one mistyped inner character
/// (in particular wherever `p` occurs in `s`).
pub open spec fn near_contains(s: Seq<char>, p: Seq<char>) -> bool {
    exists|j: int| near_at(s, p, j)
}

/// Sample application `i` matches `keyword`: the lower-cased keyword stands
/// in its lower-cased name, forgiving one mistyped inner character.
pub open spec fn mock_matches(i: int, keyword: Seq<char>) -> bool {
    near_contains(lowercase(mock_row(i).0), lowercase(keyword))
}

/// Whether `p` stands in `s` at `j`, forgiving one mistyped inner character.
fn near_at_exec(s: &Vec<char>, p: &Vec<char>, j: usize) -> (r: bool)
    requires
        j + p.len() <= s.len(),
    ensures
        r == near_at(s@, p@, j as int),
{
    let n = p.len();
    if n == 0 {
        return true;
    }
    if s[j] != p[0] || s[j + n - 1] != p[n - 1] {
        return false;
    }
    let mut miss: Option<usize> = None;
    let mut k: usize = 1;
    while k < n - 1
        invariant
            1 <= k <= n,
            n == p.len(),
            j + n <= s.len(),
            match miss {
                None => forall|a: int| 0 < a < k ==> s@[j + a] == #[trigger] p@[a],
                Some(m) => 0 < m < k && s@[j + m] != p@[m as int] && forall|a: int|
                    0 < a < k && a != m ==> s@[j + a] == #[trigger] p@[a],
            },
        decreases n - k,
    {
        if s[j + k] != p[k] {
            match miss {
                Some(m) => {
                    assert(s@[j + m] != p@[m as int] && s@[j + k] != p@[k as int]);
                    return false;
                },
                None => {
                    miss = Some(k);
                },
            }
        }
        k = k + 1;
    }
    true
}

/// Whether `p` stands somewhere in `s`, forgiving one mistyped inner
/// character.
fn near_contains_exec(s: &Vec<char>, p: &Vec<char>) -> (r: bool)
    ensures
        r == near_contains(s@, p@),
{
    if p.len() > s.len() {
        return false;
    }
    if p.len() == 0 {
        assert(near_at(s@, p@, 0));
        return true;
    }
    let last = s.len() - p.len();
    let mut j: usize = 0;
    while j <= last
        invariant
            p.len() > 0,
            last == s.len() - p.len(),
            j <= last + 1,
            forall|i: int| 0 <= i < j ==> !near_at(s@, p@, i),
        decreases last + 1 - j,
    {
        if near_at_exec(s, p, j) {
            return true;
        }
        j = j + 1;
    }
    assert forall|i: int| !near_at(s@, p@, i) by {
        if near_at(s@, p@, i) {
            assert(i <= last);
        }
    }
    false
}

/// `rows` are the sample applications that match `keyword`, in list order;
/// `idx` gives the sample index of each row.
pub open spec fn is_mock_search(keyword: Seq<char>, rows: Seq<AppDataObject>, idx: Seq<int>) -> bool {
    &&& idx.len() == rows.len()
    &&& forall|k: int|
        0 <= k < idx.len() ==> 0 <= #[trigger] idx[k] < mock_len() && mock_matches(idx[k], keyword)
            && is_mock_row(rows[k], idx[k])
    &&& forall|k: int, l: int| 0 <= k < l < idx.len() ==> #[trigger] idx[k] < #[trigger] idx[l]
    &&& forall|i: int| 0 <= i < mock_len() && #[trigger] mock_matches(i, keyword) ==> idx.contains(i)
}

/// The sample applications whose name holds `keyword`, ignoring case and
/// forgiving one mistyped inner letter, in list order.
pub fn mock_search_apps(keyword: &str) -> (r: Vec<AppDataObject>)
    ensures
        exists|idx: Seq<int>| #[trigger] is_mock_search(keyword@, r@, idx),
{
    let apps = mock_app_list();
    let keyword_lower = chars_of(to_lowercase(keyword).as_str());
    let mut r: Vec<AppDataObject> = Vec::new();
    let ghost mut idx: Seq<int> = Seq::empty();
    let mut i: usize = 0;
    while i < apps.len()
        invariant
            apps@.len() == mock_len(),
            forall|j: int| 0 <= j < mock_len() ==> is_mock_row(#[trigger] apps@[j], j),
            keyword_lower@ == lowercase(keyword@),
            i <= apps.len(),
            idx.len() == r@.len(),
            forall|k: int|
                0 <= k < idx.len() ==> 0 <= #[trigger] idx[k] < i && mock_matches(idx[k], keyword@)
                    && is_mock_row(r@[k], idx[k]),
            forall|k: int, l: int| 0 <= k < l < idx.len() ==> #[trigger] idx[k] < #[trigger] idx[l],
            forall|j: int| 0 <= j < i && #[trigger] mock_matches(j, keyword@) ==> idx.contains(j),
        decreases apps.len() - i,
    {
        assert(is_mock_row(apps@[i as int], i as int));
        let matched = match &apps[i].name {
            Some(name) => {
                let lower = chars_of(to_lowercase(name.as_str()).as_str());
                near_contains_exec(&lower, &keyword_lower)
            },
            None => false,
        };
        if matched {
            r.push(apps[i].duplicate());
            proof {
                let old_idx = idx;
                idx = idx.push(i as int);
                assert forall|j: int| 0 <= j < i + 1 && #[trigger] mock_matches(j, keyword@) implies idx.contains(
                    j,
                ) by {
                    if j < i {
                        let k: int = choose|k: int| 0 <= k < old_idx.len() && old_idx[k] == j;
                        assert(idx[k] == j);
                    } else {
                        assert(idx[idx.len() - 1] == j);
                    }
                }
            }
        }
        i = i + 1;
    }
    assert(is_mock_search(keyword@, r@, idx));
    r
}

} // verus!
