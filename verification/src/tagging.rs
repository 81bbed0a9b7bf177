//! What the tagging model is made of and the words it can say a picture shows. This
//! build carries no model; asking it to tag says so.
use vstd::prelude::*;
use crate::error::Error;
use crate::weights::{sum_bytes, total_bytes as weights_total, Weight};
use crate::text::{chars_of, extend_str, owned, rfind, slice_chars, string_of};

verus! {

/// Who made the tagging model, as its licence asks it to be said.
pub const CREDIT: &'static str = "Tagging by SigLIP, Apache 2.0, Copyright (c) Google LLC";

pub const REPO: &'static str = "google/siglip-base-patch16-224";
pub const REVISION: &'static str = "7fd15f0689c79d79e38b1c2e2e2370a7bf2761ed";

/// The side of the square the model looks at.
pub const SIDE: usize = 224;
/// The longest phrase, in words, the model reads.
pub const WORDS: usize = 64;
/// What every word is asked as.
pub const PROMPT_PREFIX: &'static str = "a photo of ";

/// The files the tagging model is made of.
pub fn weights() -> (r: Vec<Weight>)
    ensures
        r@.len() == 2,
        r@[0].bytes == 812_672_320 && r@[1].bytes == 2_399_357,
        r@[0].revision == REVISION && r@[1].revision == REVISION,
{
    let mut r: Vec<Weight> = Vec::new();
    r.push(Weight { repo: REPO, revision: REVISION, file: "model.safetensors", bytes: 812_672_320 });
    r.push(Weight { repo: REPO, revision: REVISION, file: "tokenizer.json", bytes: 2_399_357 });
    r
}

/// How many bytes the tagging model takes.
pub fn total_bytes() -> (n: u64)
    ensures
        n == 812_672_320 + 2_399_357,
{
    let w = weights();
    assert(w@ =~= seq![w@[0], w@[1]]);
    assert(sum_bytes(w@) == 812_672_320 + 2_399_357) by {
        reveal_with_fuel(sum_bytes, 5);
        assert(w@.drop_last() =~= seq![w@[0]]);
        assert(w@.drop_last().drop_last() =~= Seq::<Weight>::empty());
    }
    weights_total(w.as_slice())
}

/// The stamp recorded beside what the model saw: the model's name (what follows the
/// last `/` of its repository), `@`, and the first twelve characters of its revision.
pub open spec fn spec_stamp() -> Seq<char> {
    let repo = REPO@;
    let name = match crate::text::last_index(repo, '/') {
        Some(i) => repo.skip(i + 1),
        None => repo,
    };
    name + seq!['@'] + REVISION@.take(12)
}

/// The stamp that names the model and the revision behind it.
pub fn stamp() -> (s: String)
    ensures
        s@ == spec_stamp(),
{
    let repo = chars_of(REPO);
    let mut out = match rfind(&repo, '/') {
        Some(i) => {
            proof { crate::text::lemma_last_index(repo@, '/'); }
            let name = slice_chars(&repo, i + 1, repo.len());
            assert(name@ =~= repo@.skip(i + 1));
            name
        },
        None => repo,
    };
    out.push('@');
    let revision = chars_of(REVISION);
    proof { reveal_strlit("7fd15f0689c79d79e38b1c2e2e2370a7bf2761ed"); }
    let head = slice_chars(&revision, 0, 12);
    assert(head@ =~= REVISION@.take(12));
    let ghost before = out@;
    crate::text::extend(&mut out, &head);
    string_of(&out)
}

/// Fetching the tagging model, in a build made without it: it says so.
pub fn download(dir: &str) -> (r: Result<(), Error>)
    ensures
        r matches Err(Error::Tagging(m)) && m@ == "this build was made without the tagging model"@,
{
    Err(Error::Tagging(owned("this build was made without the tagging model")))
}

/// The words the model can say a picture shows.
pub const VOCABULARY: [&'static str; 279] = [
    "a forest",
    "a mountain",
    "a beach",
    "the sea",
    "a lake or river",
    "a field or meadow",
    "a desert",
    "snow",
    "a garden",
    "flowers",
    "a tree",
    "a sunset",
    "the night sky",
    "clouds",
    "rain",
    "a city street",
    "a village",
    "a bridge",
    "a church",
    "a castle",
    "a house",
    "a room indoors",
    "a kitchen",
    "a restaurant",
    "a shop",
    "an office",
    "a museum",
    "a station or airport",
    "a road",
    "a car",
    "a bicycle",
    "a boat",
    "a train",
    "an aeroplane",
    "a dog",
    "a cat",
    "a horse",
    "a bird",
    "a farm animal",
    "a wild animal",
    "a fish",
    "an insect",
    "one person",
    "a group of people",
    "a child",
    "a baby",
    "a portrait of a face",
    "a crowd",
    "a wedding",
    "a birthday party",
    "a concert",
    "a sports game",
    "someone swimming",
    "someone hiking",
    "someone skiing",
    "someone dancing",
    "food on a plate",
    "a cake",
    "a drink",
    "a book or newspaper",
    "a document or receipt",
    "a screenshot",
    "a computer screen",
    "a phone",
    "a painting or drawing",
    "a statue",
    "a sign with writing",
    "a christmas tree",
    "fireworks",
    "a campfire",
    "a toy",
    "a piece of furniture",
    "a waterfall",
    "a glacier",
    "a cave",
    "a canyon",
    "a valley",
    "a cliff",
    "an island",
    "a volcano",
    "sand dunes",
    "a rainforest",
    "a moor",
    "rocks and boulders",
    "a harbour",
    "a pier",
    "a swimming pool",
    "a sunrise",
    "the stars",
    "the moon",
    "a storm",
    "lightning",
    "a rainbow",
    "fog or mist",
    "the northern lights",
    "autumn leaves",
    "blossom on a tree",
    "a cactus",
    "a palm tree",
    "a vineyard",
    "a field of crops",
    "a mushroom",
    "a plant in a pot",
    "a bouquet",
    "a city skyline",
    "a cathedral",
    "a mosque",
    "a temple",
    "ruins",
    "a block of flats",
    "a skyscraper",
    "a lighthouse",
    "a windmill",
    "a barn",
    "a market",
    "a playground",
    "a cemetery",
    "a monument",
    "a fountain",
    "a staircase",
    "a narrow alley",
    "a tunnel",
    "a building site",
    "a car park",
    "a fence or wall",
    "a doorway",
    "a window",
    "a bathroom",
    "a bedroom",
    "a living room",
    "a cafe",
    "a bar",
    "a supermarket",
    "a classroom",
    "a library",
    "an art gallery",
    "a hospital",
    "a hotel room",
    "a gym",
    "a theatre",
    "inside a church",
    "a workshop",
    "a laboratory",
    "a corridor",
    "a balcony",
    "a motorcycle",
    "a sailing boat",
    "a ship",
    "a tram",
    "a bus",
    "a lorry",
    "a helicopter",
    "a hot air balloon",
    "a tractor",
    "a railway track",
    "traffic",
    "a cow",
    "a sheep",
    "a goat",
    "a pig",
    "a chicken",
    "a duck",
    "an owl",
    "a bird of prey",
    "a seagull",
    "a butterfly",
    "a bee",
    "a spider",
    "a deer",
    "a fox",
    "a bear",
    "a monkey",
    "an elephant",
    "a lizard",
    "a snake",
    "a turtle",
    "a squirrel",
    "a rabbit",
    "a frog",
    "a jellyfish",
    "a couple",
    "a family",
    "a selfie",
    "someone smiling",
    "an older person",
    "people around a table",
    "a person seen from behind",
    "someone asleep",
    "someone at work",
    "a team photograph",
    "a festival",
    "a parade",
    "a graduation",
    "a funeral",
    "a protest",
    "a fairground",
    "a picnic",
    "a campsite",
    "a market stall",
    "a christening",
    "a party at night",
    "a school event",
    "someone running",
    "someone cycling",
    "someone climbing",
    "someone fishing",
    "someone surfing",
    "someone sailing",
    "someone playing football",
    "someone playing an instrument",
    "someone singing",
    "someone cooking",
    "someone reading",
    "someone painting",
    "someone riding a horse",
    "someone at a computer",
    "someone taking a photograph",
    "someone gardening",
    "someone shopping",
    "someone snowboarding",
    "someone rowing",
    "someone skateboarding",
    "bread",
    "a pizza",
    "fruit",
    "vegetables",
    "a salad",
    "a plate of meat",
    "a dessert",
    "ice cream",
    "a cup of coffee",
    "a glass of wine",
    "a glass of beer",
    "a cocktail",
    "a barbecue",
    "a table laid for a meal",
    "handwriting",
    "a map",
    "a clock",
    "jewellery",
    "a wristwatch",
    "a camera",
    "a musical instrument",
    "tools",
    "machinery",
    "a bicycle wheel",
    "a pair of shoes",
    "clothes",
    "a suitcase",
    "a box or parcel",
    "a candle",
    "balloons",
    "a wrapped present",
    "a flag",
    "a poster",
    "a chalkboard",
    "a keyboard",
    "a television",
    "a mirror",
    "a lamp",
    "a rug or carpet",
    "cutlery",
    "a bottle",
    "a basket",
    "a close-up of a texture",
    "a reflection in water",
    "a shadow",
    "a silhouette",
    "a black and white photograph",
    "a blurred photograph",
    "a dark photograph",
    "an aerial view",
    "a panorama",
    "a macro photograph of a flower",
    "halloween pumpkins",
    "easter eggs",
    "a decorated room",
    "a snowman",
    "a nativity scene",
];

} // verus!

verus! {

/// The bytes the vocabulary stamp is taken of: the prompt prefix, the revision, then
/// each word followed by a zero byte.
pub open spec fn vocabulary_bytes() -> Seq<u8> {
    crate::text::utf8(PROMPT_PREFIX@) + crate::text::utf8(REVISION@) + words_bytes(VOCABULARY@)
}

/// Each of `words` in UTF-8 followed by a zero byte.
pub open spec fn words_bytes(words: Seq<&str>) -> Seq<u8>
    decreases words.len(),
{
    if words.len() == 0 {
        Seq::empty()
    } else {
        words_bytes(words.drop_last()) + crate::text::utf8(words.last()@) + seq![0u8]
    }
}

/// The stamp of the vocabulary: the first sixteen hexadecimal digits of the BLAKE3
/// digest of its bytes. It changes whenever the prefix, the revision or a word does.
pub open spec fn spec_vocabulary_stamp() -> Seq<char> {
    crate::digest::hex(crate::digest::blake3_of(vocabulary_bytes())).take(16)
}

/// The stamp that names this vocabulary, asked with this prefix of this revision.
pub fn vocabulary_stamp() -> (r: String)
    ensures
        r@ == spec_vocabulary_stamp(),
{
    let mut bytes: Vec<u8> = Vec::new();
    crate::text::put_text(&mut bytes, PROMPT_PREFIX);
    crate::text::put_text(&mut bytes, REVISION);
    let ghost head = bytes@;
    let mut i: usize = 0;
    while i < VOCABULARY.len()
        invariant
            i <= VOCABULARY@.len(),
            bytes@ == head + words_bytes(VOCABULARY@.take(i as int)),
        decreases VOCABULARY.len() - i,
    {
        assert(VOCABULARY@.take(i + 1).drop_last() =~= VOCABULARY@.take(i as int));
        crate::text::put_text(&mut bytes, VOCABULARY[i]);
        bytes.push(0u8);
        i = i + 1;
        assert(bytes@ =~= head + words_bytes(VOCABULARY@.take(i as int)));
    }
    assert(VOCABULARY@.take(i as int) =~= VOCABULARY@);
    let digest = crate::digest::blake3_digest(bytes.as_slice());
    let hex = crate::digest::hex_of(digest.as_slice());
    let first = slice_chars(&hex, 0, 16);
    assert(first@ =~= hex@.take(16));
    string_of(&first)
}

/// Where the model's reading of the vocabulary is cached under `dir`: a file named by
/// the vocabulary stamp, so that a changed vocabulary is read again.
pub fn vocabulary_cache(dir: &str) -> (r: String)
    ensures
        r@ == crate::paths::joined_path(dir@, "vocabulary-"@ + spec_vocabulary_stamp() + ".bin"@),
{
    let mut name = chars_of("vocabulary-");
    extend_str(&mut name, vocabulary_stamp().as_str());
    extend_str(&mut name, ".bin");
    let n = string_of(&name);
    crate::paths::join_path(dir, n.as_str())
}

} // verus!
