//! A card: what is asked, what is accepted as an answer, and a hint.

use crate::ask::Ask;
use crate::text::{eq_trimmed, join, joined, trimmed};
use vstd::prelude::*;
use vstd::string::*;

verus! {

/// The hint shown after a wrong answer.
pub enum Tip {
    /// No hint.
    Absent,
    /// One hint, whichever side is asked.
    One(String),
    /// A hint for the side that is asked, then one for the other side.
    RectoVerso(String, String),
}

/// A hint as plain text.
pub enum TipView {
    Absent,
    One(Seq<char>),
    RectoVerso(Seq<char>, Seq<char>),
}

impl TipView {
    /// The hint once the card is turned over: the two texts of a pair
    /// change places.
    pub open spec fn flipped(self) -> TipView {
        match self {
            TipView::RectoVerso(front, back) => TipView::RectoVerso(back, front),
            _ => self,
        }
    }

    /// The line shown to the user after a wrong answer.
    pub open spec fn message(self) -> Seq<char> {
        match self {
            TipView::Absent => "Wrong answer."@,
            TipView::One(tip) => "Tip : "@ + tip + "."@,
            TipView::RectoVerso(tip, _) => "Tip : "@ + tip + "."@,
        }
    }
}

impl View for Tip {
    type V = TipView;

    open spec fn view(&self) -> TipView {
        match self {
            Tip::Absent => TipView::Absent,
            Tip::One(tip) => TipView::One(tip@),
            Tip::RectoVerso(front, back) => TipView::RectoVerso(front@, back@),
        }
    }
}

impl Tip {
    /// Turns the hint over with its card.
    pub fn flip(&mut self)
        ensures
            final(self)@ == old(self)@.flipped(),
    {
        if let Tip::RectoVerso(a, b) = self {
            std::mem::swap(a, b)
        }
    }

    /// The line shown to the user after a wrong answer.
    pub fn message(&self) -> (line: String)
        ensures
            line@ == self@.message(),
    {
        match self {
            Tip::Absent => "Wrong answer.".to_owned(),
            Tip::One(tip) => {
                let mut line = "Tip : ".to_owned();
                line.append(tip.as_str());
                line.append(".");
                line
            },
            Tip::RectoVerso(tip, _) => {
                let mut line = "Tip : ".to_owned();
                line.append(tip.as_str());
                line.append(".");
                line
            },
        }
    }
}

/// A prompt and the answers to it.
pub struct Card {
    /// The wordings of the prompt; the first one is shown.
    pub recto: Vec<String>,
    /// The answers that are accepted.
    pub verso: Vec<String>,
    pub tip: Tip,
    /// Whether the card stays as it is when asked to turn over.
    pub only_recto: bool,
}

/// A card as plain text.
pub struct CardView {
    pub recto: Seq<Seq<char>>,
    pub verso: Seq<Seq<char>>,
    pub tip: TipView,
    pub only_recto: bool,
}

impl CardView {
    /// A card has something to ask and something to accept.
    pub open spec fn wf(self) -> bool {
        self.recto.len() > 0 && self.verso.len() > 0
    }

    /// The card turned over. One that is `only_recto` stays as it is; of any
    /// other the two sides change places, and the hint follows.
    pub open spec fn flipped(self) -> CardView {
        if self.only_recto {
            self
        } else {
            CardView {
                recto: self.verso,
                verso: self.recto,
                tip: self.tip.flipped(),
                only_recto: self.only_recto,
            }
        }
    }

    /// Whether the answer is one of the accepted ones, white space around
    /// either left aside.
    pub open spec fn accepts(self, answer: Seq<char>) -> bool {
        exists|i: int|
            0 <= i < self.verso.len() && trimmed(#[trigger] self.verso[i]) == trimmed(answer)
    }

    /// The accepted answers in one line.
    pub open spec fn formated_verso(self) -> Seq<char> {
        joined(self.verso, " OR "@)
    }
}

impl View for Card {
    type V = CardView;

    open spec fn view(&self) -> CardView {
        CardView {
            recto: self.recto.deep_view(),
            verso: self.verso.deep_view(),
            tip: self.tip@,
            only_recto: self.only_recto,
        }
    }
}

impl Card {
    /// A card with the given sides and hint.
    pub fn new(recto: Vec<String>, verso: Vec<String>, tip: Tip, only_recto: bool) -> (card: Self)
        ensures
            card.recto == recto,
            card.verso == verso,
            card.tip == tip,
            card.only_recto == only_recto,
    {
        Self { recto, verso, tip, only_recto }
    }

    /// Whether the card has something to ask and something to accept.
    pub fn is_complete(&self) -> (complete: bool)
        ensures
            complete == self@.wf(),
    {
        self.recto.len() > 0 && self.verso.len() > 0
    }

    /// Turns the card over, unless it is `only_recto`.
    pub fn flip(&mut self)
        ensures
            final(self)@ == old(self)@.flipped(),
    {
        if !self.only_recto {
            std::mem::swap(&mut self.recto, &mut self.verso);
            self.tip.flip()
        }
    }

    /// The accepted answers in one line, to show them.
    pub fn formated_verso(&self) -> (line: String)
        ensures
            line@ == self@.formated_verso(),
    {
        join(&self.verso, " OR ")
    }

    /// Whether the answer is right.
    pub fn test(&self, answer: &str) -> (right: bool)
        ensures
            right == self@.accepts(answer@),
    {
        let mut i: usize = 0;
        while i < self.verso.len()
            invariant
                i <= self.verso.len(),
                forall|j: int|
                    0 <= j < i ==> trimmed(#[trigger] self@.verso[j]) != trimmed(answer@),
            decreases self.verso.len() - i,
        {
            if eq_trimmed(self.verso[i].as_str(), answer) {
                assert(self@.verso[i as int] == self.verso[i as int]@);
                return true;
            }
            assert(self@.verso[i as int] == self.verso[i as int]@);
            i += 1;
        }
        false
    }
}

impl Ask for Card {
    open spec fn has_card(&self) -> bool {
        true
    }

    open spec fn card(&self) -> (CardView, usize) {
        (self@, 0)
    }

    open spec fn may_advance(&self) -> bool {
        true
    }

    open spec fn leads_to(&self, next: &Self) -> bool {
        next == self
    }

    fn advance(&mut self) {
    }

    fn get_card(&self) -> (&Card, usize) {
        (self, 0)
    }
}

} // verus!
