//! What a theme draws things in.

use crate::graphics::Style;
use crate::text::same_str;
use vstd::prelude::*;

verus! {

/// The styles of a theme by scope, each as the theme's own lookup finds it, which may be that
/// of a wider scope. A scope the lookup finds nothing for is not listed.
#[derive(Debug)]
pub struct ThemeStyles {
    pub scopes: Vec<(String, Style)>,
}

impl ThemeStyles {
    /// The style of the first scope from `k` on of that name.
    pub open spec fn named(self, scope: Seq<char>, k: int) -> Option<Style>
        decreases self.scopes@.len() - k,
    {
        if k >= self.scopes@.len() {
            None
        } else if self.scopes@[k].0@ == scope {
            Some(self.scopes@[k].1)
        } else {
            self.named(scope, k + 1)
        }
    }

    /// The style of a scope, where it has one.
    pub open spec fn found(self, scope: Seq<char>) -> Option<Style> {
        self.named(scope, 0)
    }

    /// The style of a scope, the one that changes nothing where it has none.
    pub open spec fn style(self, scope: Seq<char>) -> Style {
        match self.found(scope) {
            Some(style) => style,
            None => Style::spec_plain(),
        }
    }

    /// The style of a scope, or that of another where it has none.
    pub open spec fn style_or(self, scope: Seq<char>, other: Seq<char>) -> Style {
        match self.found(scope) {
            Some(style) => style,
            None => self.style(other),
        }
    }

    pub fn try_get(&self, scope: &str) -> (r: Option<Style>)
        ensures
            r == self.found(scope@),
    {
        let mut k: usize = 0;
        while k < self.scopes.len()
            invariant
                k <= self.scopes@.len(),
                self.found(scope@) == self.named(scope@, k as int),
            decreases self.scopes@.len() - k,
        {
            if same_str(self.scopes[k].0.as_str(), scope) {
                return Some(self.scopes[k].1);
            }
            k = k + 1;
        }
        None
    }

    pub fn get(&self, scope: &str) -> (r: Style)
        ensures
            r == self.style(scope@),
    {
        match self.try_get(scope) {
            Some(style) => style,
            None => Style::plain(),
        }
    }

    pub fn get_or(&self, scope: &str, other: &str) -> (r: Style)
        ensures
            r == self.style_or(scope@, other@),
    {
        match self.try_get(scope) {
            Some(style) => style,
            None => self.get(other),
        }
    }
}

/// A scope the theme lists is drawn in its style, one it does not list changes nothing, and
/// where there is another to fall back on it is drawn as that.
pub proof fn a_scope_has_its_style(theme: ThemeStyles, i: int, scope: Seq<char>, other: Seq<char>)
    ensures
        0 <= i < theme.scopes@.len() && theme.scopes@[i].0@ == scope && (forall|j: int|
            0 <= j < i ==> (#[trigger] theme.scopes@[j]).0@ != scope) ==> theme.style(scope)
            == theme.scopes@[i].1 && theme.style_or(scope, other) == theme.scopes@[i].1,
        (forall|j: int| 0 <= j < theme.scopes@.len() ==> (#[trigger] theme.scopes@[j]).0@ != scope)
            ==> theme.style(scope) == Style::spec_plain() && theme.style_or(scope, other)
            == theme.style(other),
{
    if 0 <= i < theme.scopes@.len() && theme.scopes@[i].0@ == scope && (forall|j: int|
        0 <= j < i ==> (#[trigger] theme.scopes@[j]).0@ != scope) {
        lemma_named(theme, 0, i, scope);
    }
    if forall|j: int| 0 <= j < theme.scopes@.len() ==> (#[trigger] theme.scopes@[j]).0@ != scope {
        lemma_unnamed(theme, 0, scope);
    }
}

proof fn lemma_named(theme: ThemeStyles, k: int, i: int, scope: Seq<char>)
    requires
        0 <= k <= i < theme.scopes@.len(),
        theme.scopes@[i].0@ == scope,
        forall|j: int| k <= j < i ==> (#[trigger] theme.scopes@[j]).0@ != scope,
    ensures
        theme.named(scope, k) == Some(theme.scopes@[i].1),
    decreases i - k,
{
    if k < i {
        assert(theme.scopes@[k].0@ != scope);
        lemma_named(theme, k + 1, i, scope);
    }
}

proof fn lemma_unnamed(theme: ThemeStyles, k: int, scope: Seq<char>)
    requires
        0 <= k,
        forall|j: int| 0 <= j < theme.scopes@.len() ==> (#[trigger] theme.scopes@[j]).0@ != scope,
    ensures
        theme.named(scope, k) is None,
    decreases theme.scopes@.len() - k,
{
    if k < theme.scopes@.len() {
        assert(theme.scopes@[k].0@ != scope);
        lemma_unnamed(theme, k + 1, scope);
    }
}

} // verus!
