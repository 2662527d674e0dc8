use vstd::prelude::*;
use crate::text::opt_text;
use crate::modules::{is_segment, segment};
use crate::parser::SessionData;
use crate::theme::Theme;

verus! {

/// Shows the model's name.
pub struct ModelModule;

/// What `render` gives: the segment, or nothing when its data is missing.
pub open spec fn model_output(data: SessionData, theme: Theme, r: Option<Seq<char>>) -> bool {
    match data.model {
        None => r is None,
        Some(m) => r is Some && is_segment(
            r->0,
            theme.icons.model@,
            m@,
            theme.colors.primary@,
        ),
    }
}

impl ModelModule {
    pub fn name(&self) -> (r: &'static str)
        ensures
            r@ == "model"@,
    {
        "model"
    }

    /// The model, after the model icon, in the primary color.
    pub fn render(&self, data: &SessionData, theme: &Theme) -> (r: Option<String>)
        ensures
            model_output(*data, *theme, opt_text(r)),
    {
        match &data.model {
            None => None,
            Some(m) => Some(segment(theme.icons.model, m.as_str(), theme.colors.primary.as_str())),
        }
    }
}

} // verus!
