//! A generative test: random theses inserted and tagged, with reads checked
//! after every step against a mirror kept in the test.

use nanorand::{Rng, WyRand};
use sweater::content::Content;
use sweater::ids::ObjectId;
use sweater::relation::{Relation, RelationKind};
use sweater::resolver::AliasesResolver;
use sweater::sweater::{Sweater, SweaterConfig};
use sweater::tag::Tag;
use sweater::text::Text;
use sweater::thesis::Thesis;
use sweater::write::WriteTransaction;
use std::collections::BTreeMap;

const ENGLISH_LETTERS: [&str; 26] = [
    "a", "b", "c", "d", "e", "f", "g", "h", "i", "j", "k", "l", "m", "n", "o", "p", "q", "r", "s",
    "t", "u", "v", "w", "x", "y", "z",
];
const RUSSIAN_LETTERS: [&str; 33] = [
    "а", "б", "в", "г", "д", "е", "ё", "ж", "з", "и", "й", "к", "л", "м", "н", "о", "п", "р", "с",
    "т", "у", "ф", "х", "ц", "ч", "ш", "щ", "ъ", "ы", "ь", "э", "ю", "я",
];

fn random_text_source(
    rng: &mut WyRand,
    previously_added_theses: &BTreeMap<u128, Thesis>,
) -> String {
    let language = rng.generate_range(1u32..=2);
    let words: Vec<String> = (0..rng.generate_range(3u32..=10))
        .map(|_| {
            if previously_added_theses.is_empty() || rng.generate_range(0u32..=1) == 0 {
                (0..rng.generate_range(2u32..=8))
                    .map(|_| {
                        if language == 1 {
                            ENGLISH_LETTERS[rng.generate_range(0..ENGLISH_LETTERS.len())]
                        } else {
                            RUSSIAN_LETTERS[rng.generate_range(0..RUSSIAN_LETTERS.len())]
                        }
                    })
                    .collect()
            } else {
                let nth = rng.generate_range(0..previously_added_theses.len());
                let id = *previously_added_theses.keys().nth(nth).unwrap();
                let id_text: String = ObjectId { value: id }.text_chars().into_iter().collect();
                format!("[{}]", id_text)
            }
        })
        .collect();
    let mut result = String::new();
    for (i, word) in words.iter().enumerate() {
        result.push_str(word);
        if i < words.len() - 1 {
            if rng.generate_range(0u32..3) == 0 {
                result.push_str(", ");
            } else {
                result.push(' ');
            }
        }
    }
    result
}

fn random_tag(rng: &mut WyRand) -> Tag {
    Tag((0..rng.generate_range(2u32..=8))
        .map(|_| ENGLISH_LETTERS[rng.generate_range(0..ENGLISH_LETTERS.len())])
        .collect())
}

fn random_thesis(
    rng: &mut WyRand,
    previously_added_theses: &BTreeMap<u128, Thesis>,
    transaction: &WriteTransaction,
) -> Thesis {
    let action_id = if previously_added_theses.is_empty() {
        1
    } else {
        rng.generate_range(1u32..=2)
    };
    let content = match action_id {
        1 => {
            let source = random_text_source(rng, previously_added_theses);
            let resolver = AliasesResolver::new(&transaction.store);
            Content::Text(Text::new(&source, &resolver).unwrap())
        }
        _ => {
            let from_nth = rng.generate_range(0..previously_added_theses.len());
            let to_nth = rng.generate_range(0..previously_added_theses.len());
            let kinds = &transaction.sweater_config.supported_relations_kinds;
            let kind = kinds[rng.generate_range(0..kinds.len())].clone();
            Content::Relation(Relation {
                from: ObjectId {
                    value: *previously_added_theses.keys().nth(from_nth).unwrap(),
                },
                to: ObjectId {
                    value: *previously_added_theses.keys().nth(to_nth).unwrap(),
                },
                kind,
            })
        }
    };
    Thesis {
        alias: None,
        content,
        tags: vec![],
    }
}

#[test]
fn test_generative() {
    let sweater = Sweater::new(SweaterConfig {
        supported_relations_kinds: vec![
            RelationKind("supports".to_string()),
            RelationKind("contradicts".to_string()),
        ],
    });
    let mut rng = WyRand::new_seed(0);
    let mut transaction = sweater.lock_all_and_write();
    let mut previously_added_theses: BTreeMap<u128, Thesis> = BTreeMap::new();
    for _ in 0..1000 {
        let action_id = if previously_added_theses.is_empty() {
            1
        } else {
            rng.generate_range(1u32..=2)
        };
        match action_id {
            1 => {
                let thesis = {
                    let mut result =
                        random_thesis(&mut rng, &previously_added_theses, &transaction);
                    while previously_added_theses.contains_key(&result.id().value) {
                        result = random_thesis(&mut rng, &previously_added_theses, &transaction);
                    }
                    result
                };
                thesis.validated().unwrap();
                transaction.insert_thesis(thesis.clone()).unwrap();
                let thesis_id = thesis.id();
                assert_eq!(
                    transaction.store.get_thesis(&thesis_id).unwrap(),
                    thesis
                );
                for referenced in thesis.references() {
                    assert!(transaction
                        .store
                        .where_referenced(&referenced)
                        .contains(&thesis_id));
                }
                previously_added_theses.insert(thesis_id.value, thesis);
            }
            _ => {
                let tag_to_add = random_tag(&mut rng);
                let nth = rng.generate_range(0..previously_added_theses.len());
                let thesis_to_tag_id = ObjectId {
                    value: *previously_added_theses.keys().nth(nth).unwrap(),
                };
                transaction
                    .tag_thesis(&thesis_to_tag_id, tag_to_add.clone())
                    .unwrap();
                assert!(transaction
                    .store
                    .get_thesis(&thesis_to_tag_id)
                    .unwrap()
                    .tags
                    .contains(&tag_to_add));
                let mirror = previously_added_theses.get_mut(&thesis_to_tag_id.value).unwrap();
                if !mirror.tags.contains(&tag_to_add) {
                    mirror.tags.push(tag_to_add);
                }
            }
        }
    }
    for (thesis_id, thesis) in previously_added_theses.iter() {
        assert_eq!(
            transaction
                .store
                .get_thesis(&ObjectId { value: *thesis_id })
                .unwrap(),
            *thesis
        );
    }
}
