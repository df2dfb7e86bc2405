use vstd::prelude::*;

verus! {

/// The text shown when a game ends.
pub struct EndMessageText(pub String);

impl Default for EndMessageText {
    fn default() -> (r: Self)
        ensures
            r.0@ == Seq::<char>::empty(),
    {
        Self(String::new())
    }
}

impl EndMessageText {
    /// The message shown when a ghost catches the player.
    pub fn caught() -> (r: Self)
        ensures
            r.0@ == "Diagnosis: Skill Issue"@,
    {
        Self("Diagnosis: Skill Issue".to_owned())
    }

    /// The message shown when the player eats every dot.
    pub fn won() -> (r: Self)
        ensures
            r.0@ == "You Win! Now, go play\nsome real disc golf."@,
    {
        Self("You Win! Now, go play\nsome real disc golf.".to_owned())
    }
}

} // verus!
