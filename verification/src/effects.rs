//! Side effects accumulated while emitting: whether the Go stdlib prelude is
//! needed, and which Go import paths the emitted code requires.
use vstd::prelude::*;

use crate::text::{str_eq, strings_view};

verus! {

pub struct EmitEffects {
    pub needs_stdlib: bool,
    /// Required Go import paths, each once, in order of first requirement.
    pub go_imports: Vec<String>,
}

impl Default for EmitEffects {
    fn default() -> (r: Self)
        ensures
            !r.needs_stdlib,
            r.go_imports@.len() == 0,
    {
        EmitEffects { needs_stdlib: false, go_imports: Vec::new() }
    }
}

/// `imports` with `path` added at the end unless already present.
pub open spec fn with_import(imports: Seq<Seq<char>>, path: Seq<char>) -> Seq<Seq<char>> {
    if imports.contains(path) {
        imports
    } else {
        imports.push(path)
    }
}

/// Requiring an import records it, keeps earlier imports in order, never
/// records a path twice, and requiring it again changes nothing.
pub proof fn law_imports_recorded_once(imports: Seq<Seq<char>>, path: Seq<char>)
    ensures
        with_import(imports, path).contains(path),
        imports.is_prefix_of(with_import(imports, path)),
        imports.no_duplicates() ==> with_import(imports, path).no_duplicates(),
        with_import(with_import(imports, path), path) == with_import(imports, path),
{
    let r = with_import(imports, path);
    assert(imports =~= r.subrange(0, imports.len() as int));
    if !imports.contains(path) {
        assert(r[r.len() - 1] == path);
    }
}

impl EmitEffects {
    /// Marks the Go stdlib prelude as needed.
    pub fn require_stdlib(&mut self)
        ensures
            final(self).needs_stdlib,
            final(self).go_imports@ == old(self).go_imports@,
    {
        self.needs_stdlib = true;
    }

    /// Records that the emitted code imports `path`.
    pub fn require_go_import(&mut self, path: String)
        ensures
            final(self).needs_stdlib == old(self).needs_stdlib,
            strings_view(final(self).go_imports@) == with_import(strings_view(old(self).go_imports@), path@),
    {
        let mut i: usize = 0;
        while i < self.go_imports.len()
            invariant
                i <= self.go_imports@.len(),
                forall|k: int| 0 <= k < i ==> self.go_imports@[k]@ != path@,
            decreases self.go_imports.len() - i,
        {
            if str_eq(self.go_imports[i].as_str(), path.as_str()) {
                proof {
                    assert(strings_view(self.go_imports@)[i as int] == path@);
                }
                return;
            }
            i += 1;
        }
        proof {
            assert(!strings_view(self.go_imports@).contains(path@)) by {
                if strings_view(self.go_imports@).contains(path@) {
                    let k = choose|k: int| 0 <= k < strings_view(self.go_imports@).len() && strings_view(self.go_imports@)[k] == path@;
                    assert(self.go_imports@[k]@ == path@);
                }
            }
        }
        let ghost before = self.go_imports@;
        self.go_imports.push(path);
        proof {
            assert(strings_view(self.go_imports@) =~= strings_view(before).push(path@));
        }
    }
}

} // verus!
