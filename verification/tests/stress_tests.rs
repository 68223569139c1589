use ashmem::tracker::Tracker;

/// Small deterministic generator, so the stress run is reproducible.
struct Lcg(u64);

impl Lcg {
    fn next(&mut self) -> u64 {
        self.0 = self.0.wrapping_mul(6364136223846793005).wrapping_add(1442695040888963407);
        self.0 >> 33
    }

    fn below(&mut self, max: usize) -> usize {
        (self.next() % (max as u64)) as usize
    }
}

fn model_covers(model: &[bool], start: usize, end: usize) -> bool {
    model[start..=end].iter().any(|&b| b)
}

fn check_against_model(t: &Tracker, obj: usize, model: &[bool]) {
    for i in 0..model.len() {
        assert_eq!(
            t.range_has_unpinned_page(obj, i, i),
            model[i],
            "page {} disagrees with the model",
            i
        );
    }
}

fn check_invariants(t: &Tracker) {
    for a in &t.objects {
        for w in a.ranges.windows(2) {
            assert!(w[1].pgend + 2 <= w[0].pgstart, "entries touch or overlap");
        }
    }
    let sum: usize = t.lru.entries.iter().map(|e| e.pgend - e.pgstart + 1).sum();
    assert_eq!(t.lru.count, sum);
}

#[test]
fn random_pin_unpin_matches_page_model() {
    const SIZE: usize = 16;
    let mut rng = Lcg(42);
    let mut t = Tracker::new();
    let obj = t.open_object();
    let mut model = [false; SIZE];

    for _ in 0..SIZE {
        let start = rng.below(SIZE);
        let end = rng.below(SIZE - start) + start;
        if rng.below(2) == 0 {
            t.unpin(obj, start, end);
            for b in &mut model[start..=end] {
                *b = true;
            }
        } else {
            t.pin(obj, start, end);
            for b in &mut model[start..=end] {
                *b = false;
            }
        }
        check_against_model(&t, obj, &model);
        check_invariants(&t);
    }
}

#[test]
fn random_ops_across_objects_with_reclaim() {
    const SIZE: usize = 32;
    const OBJECTS: usize = 3;
    let mut rng = Lcg(2024);
    let mut t = Tracker::new();
    let mut objs = Vec::new();
    let mut models = Vec::new();
    for _ in 0..OBJECTS {
        objs.push(t.open_object());
        models.push([false; SIZE]);
    }

    for round in 0..200 {
        let which = rng.below(OBJECTS);
        let obj = objs[which];
        let start = rng.below(SIZE);
        let end = rng.below(SIZE - start) + start;
        match rng.below(4) {
            0 | 1 => {
                t.unpin(obj, start, end);
                for b in &mut models[which][start..=end] {
                    *b = true;
                }
            }
            2 => {
                t.pin(obj, start, end);
                for b in &mut models[which][start..=end] {
                    *b = false;
                }
            }
            _ => {
                // a reclaim pass flips ranges purged; pages stay unpinned
                // for status queries, so the models are untouched
                let budget = rng.below(SIZE) + 1;
                let (freed, discards) = t.free_lru(budget, round % 5 == 0);
                assert_eq!(
                    freed,
                    discards
                        .iter()
                        .map(|d| d.byte_len / 4096)
                        .sum::<usize>()
                );
            }
        }
        for w in 0..OBJECTS {
            check_against_model(&t, objs[w], &models[w]);
        }
        check_invariants(&t);
    }
}
