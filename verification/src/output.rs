use vstd::prelude::*;

verus! {

/// A prefix-tagging line printer: renders `"<prefix><line>\n"` when
/// enabled and nothing otherwise. The writing itself happens outside;
/// callers serialize access across workers.
pub struct Controller {
    pub enabled: bool,
    pub prefix: String,
}

impl Controller {
    pub fn new(enabled: bool, prefix: String) -> (r: Controller)
        ensures
            r.enabled == enabled,
            r.prefix@ == prefix@,
    {
        Controller { enabled, prefix }
    }

    /// The text to write for one line: the prefix, the line, and a
    /// newline — or nothing while disabled.
    pub fn render_line(&self, s: &str) -> (r: Option<String>)
        ensures
            self.enabled ==> (r matches Some(l) && l@ == self.prefix@ + s@ + seq!['\n']),
            !self.enabled ==> r is None,
    {
        if !self.enabled {
            return None;
        }
        let mut l = self.prefix.clone();
        l.append(s);
        proof {
            reveal_strlit("\n");
        }
        l.append("\n");
        proof {
            assert("\n"@ =~= seq!['\n']);
            assert(l@ =~= self.prefix@ + s@ + seq!['\n']);
        }
        Some(l)
    }
}

} // verus!
