use note_store::codec::{format_filename, note_number};
use note_store::listing::{list_notes, FoundFile};
use note_store::migration::legacy_files;
use note_store::numbering::get_next_number;
use note_store::order::{display_order, reorder_note};
use note_store::slug::slugify;

struct Dice(u64);

impl Dice {
    fn roll(&mut self, sides: u64) -> u64 {
        self.0 = self.0.wrapping_mul(6364136223846793005).wrapping_add(1442695040888963407);
        (self.0 >> 33) % sides
    }
}

fn random_directory(dice: &mut Dice) -> Vec<String> {
    let mut dir: Vec<String> = Vec::new();
    let count = dice.roll(8);
    for n in 0..count {
        let name = match dice.roll(10) {
            0 => format!("draft{}.md", n),
            1 => format!("{}-other{}.txt", dice.roll(12), n),
            2 => format!("17000000000{:02}.md", dice.roll(100)),
            _ => format_filename(dice.roll(12), &format!("n{}", n)),
        };
        if !dir.contains(&name) {
            dir.push(name);
        }
    }
    dir
}

fn shown(dir: &Vec<String>) -> Vec<String> {
    display_order(dir).iter().map(|note| dir[note.index].clone()).collect()
}

#[test]
fn moves_in_random_directories_give_the_order_asked_for() {
    let mut dice = Dice(2024);
    for _ in 0..3000 {
        let dir = random_directory(&mut dice);
        let before = shown(&dir);
        if before.is_empty() {
            continue;
        }
        let source = dice.roll(before.len() as u64) as usize;
        let new_index = dice.roll(before.len() as u64 + 2) as usize;
        let target = before[source].clone();
        let plan = reorder_note(&dir, &target, new_index).unwrap();

        let mut after = dir.clone();
        for step in &plan.renames {
            assert!(!after.contains(&step.to), "{:?} {:?}", dir, plan);
            let at = after.iter().position(|name| *name == step.from).unwrap();
            after[at] = step.to.clone();
        }

        let mut places: Vec<usize> = (0..before.len()).collect();
        if new_index != source && before.len() > 1 {
            places.remove(source);
            places.insert(new_index.min(before.len() - 1), source);
        } else {
            assert!(plan.renames.is_empty());
        }
        let expected: Vec<String> = places
            .iter()
            .map(|&at| {
                let was = &before[at];
                plan.renames
                    .iter()
                    .find(|step| step.from == *was)
                    .map(|step| step.to.clone())
                    .unwrap_or_else(|| was.clone())
            })
            .collect();
        assert_eq!(shown(&after), expected, "{:?} {} -> {}", dir, source, new_index);
        if new_index != source && before.len() > 1 {
            assert_eq!(expected[new_index.min(before.len() - 1)], plan.new_name);
        } else {
            assert_eq!(plan.new_name, target);
        }

        let keys: Vec<u64> = shown(&after).iter().map(|name| note_number(name).unwrap()).collect();
        if plan.renames.len() > 1 {
            let top = before.iter().map(|name| note_number(name).unwrap()).max().unwrap();
            assert_eq!(plan.renames.len(), before.len());
            assert!(keys.windows(2).all(|pair| pair[0] == pair[1] + 1));
            assert_eq!(*keys.last().unwrap(), top + 1);
        }
        for name in dir.iter().filter(|name| note_number(name).is_none()) {
            assert!(after.contains(name));
        }
        if plan.renames.len() == 1 {
            assert_eq!(plan.renames[0].from, target);
        }
    }
}

#[test]
fn display_order_agrees_with_a_stable_sort() {
    let mut dice = Dice(7);
    for _ in 0..2000 {
        let dir = random_directory(&mut dice);
        let mut expected: Vec<String> =
            dir.iter().filter(|name| note_number(name).is_some()).cloned().collect();
        expected.sort_by(|a, b| note_number(b).cmp(&note_number(a)));
        assert_eq!(shown(&dir), expected);
    }
}

#[test]
fn next_number_agrees_with_the_maximum() {
    let mut dice = Dice(11);
    for _ in 0..2000 {
        let dir = random_directory(&mut dice);
        let expected = dir
            .iter()
            .filter_map(|name| {
                let stem = std::path::Path::new(name).file_stem()?.to_string_lossy().to_string();
                stem.find('-').and_then(|dash| stem[..dash].parse::<u64>().ok())
            })
            .max()
            .unwrap_or(0)
            + 1;
        assert_eq!(get_next_number(&dir), expected);
    }
}

#[test]
fn legacy_files_agree_with_a_stable_sort_by_timestamp() {
    let mut dice = Dice(13);
    for _ in 0..2000 {
        let dir = random_directory(&mut dice);
        let mut expected: Vec<String> = dir
            .iter()
            .filter(|name| {
                name.strip_suffix(".md").is_some_and(|stem| {
                    stem.len() >= 10 && stem.chars().all(|c| c.is_ascii_digit())
                })
            })
            .cloned()
            .collect();
        expected.sort_by_key(|name| name[..name.len() - 3].parse::<u64>().unwrap_or(0));
        assert_eq!(legacy_files(&dir), expected);
    }
}

#[test]
fn listing_agrees_with_a_stable_sort() {
    let mut dice = Dice(17);
    for _ in 0..2000 {
        let files: Vec<FoundFile> = random_directory(&mut dice)
            .into_iter()
            .map(|name| FoundFile {
                path: format!("/n/{}", name),
                file_name: name,
                modified: dice.roll(5),
                head: String::new(),
            })
            .collect();
        let mut expected: Vec<(String, u64)> = files
            .iter()
            .filter(|file| file.file_name.len() > 3 && file.file_name.ends_with(".md"))
            .map(|file| (file.file_name[..file.file_name.len() - 3].to_string(), file.modified))
            .collect();
        let key = |stem: &str| stem.find('-').and_then(|dash| stem[..dash].parse::<u64>().ok());
        expected.sort_by(|a, b| match (key(&a.0), key(&b.0)) {
            (Some(x), Some(y)) => y.cmp(&x),
            (Some(_), None) => std::cmp::Ordering::Less,
            (None, Some(_)) => std::cmp::Ordering::Greater,
            (None, None) => b.1.cmp(&a.1),
        });
        let listed: Vec<(String, u64)> =
            list_notes(&files).into_iter().map(|entry| (entry.name, entry.modified)).collect();
        assert_eq!(listed, expected);
    }
}

#[test]
fn slug_agrees_with_the_plain_way_of_making_it() {
    let alphabet: Vec<char> = "aB-- _9é!Σσ.İß日".chars().collect();
    let mut dice = Dice(19);
    for _ in 0..3000 {
        let length = dice.roll(9) as usize;
        let text: String =
            (0..length).map(|_| alphabet[dice.roll(alphabet.len() as u64) as usize]).collect();
        let separated: String = text
            .to_lowercase()
            .chars()
            .map(|c| if c.is_alphanumeric() { c } else { '-' })
            .collect();
        let words: Vec<&str> = separated.split('-').filter(|word| !word.is_empty()).collect();
        let expected = words.join("-");
        let slug = slugify(&text);
        assert_eq!(slug, expected, "{:?}", text);
        assert_eq!(slugify(&slug), slug, "{:?}", text);
    }
}
