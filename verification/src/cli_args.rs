//! Configuration values, as the core receives them: already parsed and
//! resolved. Argument parsing itself is plumbing outside the core.

use vstd::prelude::*;

verus! {

/// Inclusion/exclusion criteria over projects and users, resolved once
/// before collection.
pub struct FilterArgs {
    /// Project name identifiers to target; `None` targets all projects.
    pub target_project: Option<Vec<String>>,
    /// Project names whose entries are skipped; `None` ignores none.
    pub ignore_project: Option<Vec<String>>,
    /// User identifiers to filter by; `None` takes all users.
    pub user: Option<Vec<String>>,
}

/// Tracker-side configuration.
pub struct RedmineArgs {
    /// Base endpoint to subscribe to, without a trailing slash.
    pub subscribe_url: String,
    /// Polling interval in milliseconds; zero means one shot.
    pub interval: u64,
    /// Path of the durable state file.
    pub prev_redmine_data: String,
    /// Access key sent with feed requests, already resolved.
    pub redmine_atom_key: Option<String>,
    /// Access key sent with REST requests, already resolved.
    pub redmine_api_key: Option<String>,
    /// Maximum number of characters of one notification sentence.
    pub max_content_length: usize,
    /// Filter for getting issues.
    pub filter: FilterArgs,
}

/// Delivery-side configuration.
pub struct SlackArgs {
    /// Webhook URL to notify, without a trailing slash; `None` disables
    /// delivery.
    pub notify_url: Option<String>,
    /// Message template file path; `None` uses the default template.
    pub template_path: Option<String>,
}

/// All configuration of one run.
pub struct CliArgs {
    /// Verbose logging.
    pub verbose: bool,
    /// Tracker-side configuration.
    pub redmine: RedmineArgs,
    /// Delivery-side configuration.
    pub slack: SlackArgs,
}

/// Where a secret value is to be read from.
pub enum SecretSource {
    /// Read the file at this path.
    File(String),
    /// Read this environment variable.
    Env(String),
    /// Use the value itself.
    Literal(String),
}

/// Classifies a secret argument: `@path` names a file, `$VAR` names an
/// environment variable, anything else is the secret itself. The caller
/// performs the read and hands the core the resolved value.
pub fn secret_source(value: &str) -> (r: SecretSource)
    ensures
        value@.len() > 0 && value@[0] == '@' ==> (r matches SecretSource::File(p) && p@
            == value@.drop_first()),
        value@.len() > 0 && value@[0] == '$' ==> (r matches SecretSource::Env(p) && p@
            == value@.drop_first()),
        (value@.len() == 0 || (value@[0] != '@' && value@[0] != '$')) ==> (r
            matches SecretSource::Literal(p) && p@ == value@),
{
    let v = crate::text::chars_of(value);
    if v.len() > 0 && v[0] == '@' {
        let mut rest: Vec<char> = Vec::new();
        for i in it: 1..v.len()
            invariant
                rest@ =~= v@.subrange(1, i as int),
        {
            rest.push(v[i]);
            proof {
                assert(rest@ =~= v@.subrange(1, i + 1));
            }
        }
        proof {
            assert(v@.subrange(1, v@.len() as int) =~= v@.drop_first());
        }
        SecretSource::File(crate::text::string_from_chars(&rest))
    } else if v.len() > 0 && v[0] == '$' {
        let mut rest: Vec<char> = Vec::new();
        for i in it: 1..v.len()
            invariant
                rest@ =~= v@.subrange(1, i as int),
        {
            rest.push(v[i]);
            proof {
                assert(rest@ =~= v@.subrange(1, i + 1));
            }
        }
        proof {
            assert(v@.subrange(1, v@.len() as int) =~= v@.drop_first());
        }
        SecretSource::Env(crate::text::string_from_chars(&rest))
    } else {
        SecretSource::Literal(crate::text::string_from_chars(&v))
    }
}

/// Drops one trailing '/' from a subscribe or notify URL, as URL
/// normalisation does.
pub fn normalize_url(url: &str) -> (r: String)
    ensures
        url@.len() > 0 && url@.last() == '/' ==> r@ == url@.drop_last(),
        (url@.len() == 0 || url@.last() != '/') ==> r@ == url@,
{
    let v = crate::text::chars_of(url);
    let n = v.len();
    let keep: usize = if n > 0 && v[n - 1] == '/' {
        n - 1
    } else {
        n
    };
    let mut out: Vec<char> = Vec::new();
    for i in it: 0..keep
        invariant
            keep <= v@.len(),
            out@ =~= v@.take(i as int),
    {
        out.push(v[i]);
        proof {
            assert(out@ =~= v@.take(i + 1));
        }
    }
    proof {
        if n > 0 && v@[n - 1] == '/' {
            assert(v@.take(keep as int) =~= v@.drop_last());
        } else {
            assert(v@.take(keep as int) =~= v@);
        }
    }
    crate::text::string_from_chars(&out)
}

} // verus!
