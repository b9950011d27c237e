//! The cards as a data file lists them, and how they become a deck.

use crate::card::{Card, CardView, Tip, TipView};
use crate::deck::{Deck, DeckView};
use vstd::prelude::*;
use vstd::std_specs::convert::FromSpecImpl;

verus! {

/// A mark on a card of a data file.
pub enum Tag {
    /// The card is never turned over.
    OnlyRecto,
    /// Any other mark. It is kept and changes nothing.
    Unknow(String),
}

/// A card as a data file lists it.
pub struct CardJson {
    pub recto: Vec<String>,
    pub verso: Vec<String>,
    pub tip: Tip,
    pub tags: Vec<Tag>,
}

/// The content of a data file.
pub struct DataFile {
    pub questions: Vec<CardJson>,
}

/// Whether one of the marks is `OnlyRecto`.
pub open spec fn has_only_recto(tags: Seq<Tag>) -> bool {
    exists|i: int| 0 <= i < tags.len() && #[trigger] tags[i] is OnlyRecto
}

/// The hint that a list of texts stands for: none for an empty list, the
/// text of a list of one, and of a longer list the last two texts, as the
/// hint for the side that is asked and the hint for the other side.
pub open spec fn tip_of(tips: Seq<Seq<char>>) -> TipView {
    if tips.len() == 0 {
        TipView::Absent
    } else if tips.len() == 1 {
        TipView::One(tips[0])
    } else {
        TipView::RectoVerso(tips[tips.len() - 2], tips[tips.len() - 1])
    }
}

/// The mark that a text stands for.
pub open spec fn tag_of(string: String) -> Tag {
    if string@ == "only_recto"@ {
        Tag::OnlyRecto
    } else {
        Tag::Unknow(string)
    }
}

/// The card that an entry of a data file stands for. It is never turned
/// over if one of its marks says so.
pub open spec fn card_of(card_json: CardJson) -> Card {
    Card {
        recto: card_json.recto,
        verso: card_json.verso,
        tip: card_json.tip,
        only_recto: has_only_recto(card_json.tags@),
    }
}

impl DataFile {
    /// The cards that the file lists, in its order.
    pub open spec fn cards(self) -> Seq<CardView> {
        self.questions@.map_values(|question: CardJson| card_of(question)@)
    }
}

/// Makes a hint out of the list of texts that a data file gives for it.
pub fn tip_from_list(tips: Vec<String>) -> (tip: Tip)
    ensures
        tip@ == tip_of(tips.deep_view()),
{
    let mut tips = tips;
    let ghost texts = tips.deep_view();
    let len = tips.len();
    if len == 0 {
        Tip::Absent
    } else if len == 1 {
        let only = tips.pop().unwrap();
        assert(only@ == texts[0]);
        Tip::One(only)
    } else {
        let verso = tips.pop().unwrap();
        let recto = tips.pop().unwrap();
        assert(verso@ == texts[len - 1]);
        assert(recto@ == texts[len - 2]);
        Tip::RectoVerso(recto, verso)
    }
}

impl FromSpecImpl<String> for Tag {
    open spec fn obeys_from_spec() -> bool {
        true
    }

    open spec fn from_spec(string: String) -> Tag {
        tag_of(string)
    }
}

impl From<String> for Tag {
    fn from(string: String) -> (tag: Tag) {
        if string == "only_recto".to_owned() {
            Tag::OnlyRecto
        } else {
            Tag::Unknow(string)
        }
    }
}

impl FromSpecImpl<CardJson> for Card {
    open spec fn obeys_from_spec() -> bool {
        true
    }

    open spec fn from_spec(card_json: CardJson) -> Card {
        card_of(card_json)
    }
}

impl From<CardJson> for Card {
    fn from(card_json: CardJson) -> (card: Card) {
        let mut only_recto = false;
        let mut i: usize = 0;
        while i < card_json.tags.len()
            invariant
                i <= card_json.tags.len(),
                only_recto == has_only_recto(card_json.tags@.take(i as int)),
            decreases card_json.tags.len() - i,
        {
            proof {
                let seen = card_json.tags@.take(i as int);
                let next = card_json.tags@.take(i + 1);
                if has_only_recto(seen) {
                    let k = choose|k: int| 0 <= k < seen.len() && #[trigger] seen[k] is OnlyRecto;
                    assert(next[k] is OnlyRecto);
                }
                if has_only_recto(next) {
                    let k = choose|k: int| 0 <= k < next.len() && #[trigger] next[k] is OnlyRecto;
                    if k < i {
                        assert(seen[k] is OnlyRecto);
                    }
                }
                assert(next[i as int] == card_json.tags@[i as int]);
            }
            if matches!(card_json.tags[i], Tag::OnlyRecto) {
                only_recto = true;
            }
            i += 1;
        }
        assert(card_json.tags@.take(card_json.tags.len() as int) =~= card_json.tags@);
        Card::new(card_json.recto, card_json.verso, card_json.tip, only_recto)
    }
}

impl FromSpecImpl<DataFile> for Deck {
    /// A deck is told by its view, so nothing is said of the value itself.
    open spec fn obeys_from_spec() -> bool {
        false
    }

    open spec fn from_spec(data_file: DataFile) -> Deck {
        arbitrary()
    }
}

impl From<DataFile> for Deck {
    /// The deck of the cards that the file lists, in its order, with the
    /// cursor at the first one.
    fn from(data_file: DataFile) -> (deck: Deck)
        ensures
            deck@ == (DeckView { cards: data_file.cards(), cursor: 0 }),
            deck.wf(),
    {
        let ghost listed = data_file.questions@;
        let mut cards: Vec<Card> = Vec::new();
        for question in it: data_file.questions
            invariant
                it.seq() == listed,
                cards@ == listed.take(it.index()).map_values(
                    |question: CardJson| card_of(question),
                ),
        {
            proof {
                let done = listed.take(it.index());
                let next = listed.take(it.index() + 1);
                assert(next.map_values(|question: CardJson| card_of(question)) =~= done.map_values(
                    |question: CardJson| card_of(question),
                ).push(card_of(question)));
            }
            cards.push(Card::from(question));
        }
        proof {
            assert(listed.take(listed.len() as int) =~= listed);
            assert(crate::deck::views(cards@) =~= data_file.cards());
        }
        Deck::new(cards)
    }
}

} // verus!
