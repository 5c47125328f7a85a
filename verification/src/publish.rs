//! Static-site export: its options and result.

use vstd::prelude::*;
use crate::text::{concat, dec, extend_str, push_dec, str_views, string_of, strip_suffix_all};
use crate::vault::VaultError;

verus! {

/// What an export produced: the output directory, the number of pages and
/// of tag pages, and the generator's log.
#[derive(Clone, Debug)]
pub struct PublishResult {
    pub output_path: String,
    pub pages: usize,
    pub tags: usize,
    pub log: String,
}

/// Where to export, and the base URL of the site.
#[derive(Clone, Debug)]
pub struct PublishOptions {
    pub output_path: String,
    pub base_url: String,
}

/// The base URL used when none is given: `/`.
pub fn default_base() -> (r: String)
    ensures
        r@ == seq!['/'],
{
    proof {
        reveal_strlit("/");
    }
    "/".to_owned()
}


/// The checks made before an export: the vault must be a directory and the
/// site generator script must exist.
pub fn export_preflight(vault_path: &str, vault_is_dir: bool, script: &str, script_exists: bool) -> (r: Result<(), VaultError>)
    ensures
        !vault_is_dir ==> (r matches Err(VaultError::Other(m)) && m@ == "vault 路径不存在: "@ + vault_path@),
        vault_is_dir && !script_exists ==> (r matches Err(VaultError::Other(m)) && m@ == "找不到 SSG 脚本: "@ + script@
            + "（应在项目根 scripts/ 下）"@),
        vault_is_dir && script_exists ==> r is Ok,
{
    if !vault_is_dir {
        return Err(VaultError::Other(concat("vault 路径不存在: ", vault_path)));
    }
    if !script_exists {
        let mut m: Vec<char> = Vec::new();
        extend_str(&mut m, "找不到 SSG 脚本: ");
        extend_str(&mut m, script);
        extend_str(&mut m, "（应在项目根 scripts/ 下）");
        return Err(VaultError::Other(string_of(&m)));
    }
    Ok(())
}

/// The arguments of `node` for the site generator.
pub fn node_args(script: &str, vault_path: &str, options: &PublishOptions) -> (r: Vec<String>)
    ensures
        str_views(r@) == seq![
            script@,
            "--vault"@,
            vault_path@,
            "--out"@,
            options.output_path@,
            "--base"@,
            options.base_url@,
        ],
{
    let mut a: Vec<String> = Vec::new();
    a.push(script.to_owned());
    a.push("--vault".to_owned());
    a.push(vault_path.to_owned());
    a.push("--out".to_owned());
    a.push(options.output_path.clone());
    a.push("--base".to_owned());
    a.push(options.base_url.clone());
    assert(str_views(a@) =~= seq![
        script@,
        "--vault"@,
        vault_path@,
        "--out"@,
        options.output_path@,
        "--base"@,
        options.base_url@,
    ]);
    a
}

/// `{:?}` of an exit code: `Some(<n>)` or `None`.
pub open spec fn exit_code_text(code: Option<i32>) -> Seq<char> {
    match code {
        Some(n) => "Some("@ + (if n < 0 {
            seq!['-'] + dec((0 - n) as nat)
        } else {
            dec(n as nat)
        }) + ")"@,
        None => "None"@,
    }
}

/// The outcome of running the site generator: its log is its standard output
/// followed by its standard error; a failing run is an error with the exit
/// code and the log.
pub fn export_outcome(
    success: bool,
    code: Option<i32>,
    stdout: &str,
    stderr: &str,
    output_path: String,
    pages: usize,
    tags: usize,
) -> (r: Result<PublishResult, VaultError>)
    ensures
        !success ==> (r matches Err(VaultError::Other(m)) && m@ == "SSG 失败 (exit "@ + exit_code_text(code)
            + "):\n"@ + stdout@ + stderr@),
        success ==> (r matches Ok(p) && p.output_path@ == output_path@ && p.pages == pages && p.tags
            == tags && p.log@ == stdout@ + stderr@),
{
    let log = concat(stdout, stderr);
    if !success {
        let mut m: Vec<char> = Vec::new();
        extend_str(&mut m, "SSG 失败 (exit ");
        match code {
            Some(n) => {
                extend_str(&mut m, "Some(");
                if n < 0 {
                    m.push('-');
                    let a: i64 = 0 - (n as i64);
                    push_dec(&mut m, a as u64);
                } else {
                    push_dec(&mut m, n as u64);
                }
                extend_str(&mut m, ")");
            },
            None => extend_str(&mut m, "None"),
        }
        extend_str(&mut m, "):\n");
        extend_str(&mut m, log.as_str());
        assert(m@ =~= "SSG 失败 (exit "@ + exit_code_text(code) + "):\n"@ + stdout@ + stderr@);
        return Err(VaultError::Other(string_of(&m)));
    }
    Ok(PublishResult { output_path, pages, tags, log })
}

/// Where the tag pages of an export are: `<output>/tags`, trailing slashes
/// of the output path removed.
pub fn tags_dir(output_path: &str) -> (r: String)
    ensures
        r@ == strip_suffix_all(output_path@, "/"@) + "/tags"@,
{
    let v = crate::text::chars_of(output_path);
    let slash = crate::text::chars_of("/");
    let e = crate::text::strip_suffix_all_exec(&v, 0, v.len(), &slash);
    assert(v@.subrange(0, v@.len() as int) =~= v@);
    let mut out: Vec<char> = Vec::new();
    crate::text::extend_range(&mut out, &v, 0, e);
    extend_str(&mut out, "/tags");
    string_of(&out)
}

} // verus!
