use exercises::shelter::{Animal, AnimalShelter, Cat, Dog};

fn cat(name: &str) -> Animal {
    Animal::Cat(Cat { name: name.to_string(), declawed: false })
}

fn dog(name: &str) -> Animal {
    Animal::Dog(Dog { name: name.to_string(), mass: 1 })
}

#[test]
fn test_new() {
    let shelter = AnimalShelter::new();
    assert_eq!(shelter.n_cats(), 0);
    assert_eq!(shelter.n_dogs(), 0);
    assert_eq!(shelter.n_animals(), 0);
}

#[test]
fn test_enqueue_size() {
    let mut shelter = AnimalShelter::new();
    shelter.enqueue(Animal::Cat(Cat {
        name: "Maukit".to_string(),
        declawed: false,
    }));
    assert_eq!(shelter.n_cats(), 1);
    assert_eq!(shelter.n_dogs(), 0);
    assert_eq!(shelter.n_animals(), 1);

    shelter.enqueue(Animal::Dog(Dog {
        name: "Pippin".to_string(),
        mass: 4000,
    }));
    assert_eq!(shelter.n_cats(), 1);
    assert_eq!(shelter.n_dogs(), 1);
    assert_eq!(shelter.n_animals(), 2);
}

#[test]
fn test_retrieve_cat() {
    let mut shelter = AnimalShelter::new();
    shelter.enqueue(Animal::Cat(Cat {
        name: "A".to_string(),
        declawed: true,
    }));
    shelter.enqueue(Animal::Cat(Cat {
        name: "B".to_string(),
        declawed: false,
    }));
    assert_eq!(
        shelter.dequeue_cat(),
        Some(Cat {
            name: "A".to_string(),
            declawed: true,
        })
    );
    assert_eq!(
        shelter.dequeue_cat(),
        Some(Cat {
            name: "B".to_string(),
            declawed: false,
        })
    );
    assert_eq!(shelter.dequeue_cat(), None);
}

#[test]
fn test_retrieve_dog() {
    let mut shelter = AnimalShelter::new();
    shelter.enqueue(Animal::Dog(Dog {
        name: "A".to_string(),
        mass: 10_000,
    }));
    shelter.enqueue(Animal::Dog(Dog {
        name: "B".to_string(),
        mass: 20_000,
    }));
    assert_eq!(
        shelter.dequeue_dog(),
        Some(Dog {
            name: "A".to_string(),
            mass: 10_000,
        })
    );
    assert_eq!(
        shelter.dequeue_dog(),
        Some(Dog {
            name: "B".to_string(),
            mass: 20_000,
        })
    );
    assert_eq!(shelter.dequeue_dog(), None);
}

#[test]
fn test_retrieve_mixed() {
    let mut shelter = AnimalShelter::new();
    shelter.enqueue(Animal::Dog(Dog {
        name: "0".to_string(),
        mass: 12_500,
    }));
    shelter.enqueue(Animal::Cat(Cat {
        name: "1".to_string(),
        declawed: true,
    }));
    shelter.enqueue(Animal::Cat(Cat {
        name: "2".to_string(),
        declawed: false,
    }));
    shelter.enqueue(Animal::Dog(Dog {
        name: "3".to_string(),
        mass: 20_000,
    }));

    assert_eq!(
        shelter.dequeue(),
        Some(Animal::Dog(Dog {
            name: "0".to_string(),
            mass: 12_500,
        }))
    );
    assert_eq!(
        shelter.dequeue(),
        Some(Animal::Cat(Cat {
            name: "1".to_string(),
            declawed: true,
        }))
    );
    assert_eq!(
        shelter.dequeue_dog(),
        Some(Dog {
            name: "3".to_string(),
            mass: 20_000,
        })
    );
    assert_eq!(
        shelter.dequeue(),
        Some(Animal::Cat(Cat {
            name: "2".to_string(),
            declawed: false,
        }))
    );
}

#[test]
fn empty_shelter_gives_nothing() {
    let mut shelter = AnimalShelter::new();
    assert_eq!(shelter.dequeue(), None);
    assert_eq!(shelter.dequeue_cat(), None);
    assert_eq!(shelter.dequeue_dog(), None);
    assert_eq!(shelter.n_animals(), 0);
}

#[test]
fn dequeue_follows_arrival_across_kinds() {
    let mut shelter = AnimalShelter::new();
    let arrivals = [cat("a"), cat("b"), dog("c"), cat("d"), dog("e"), dog("f")];
    for animal in arrivals {
        shelter.enqueue(animal);
    }
    assert_eq!(shelter.n_cats(), 3);
    assert_eq!(shelter.n_dogs(), 3);
    assert_eq!(shelter.dequeue(), Some(cat("a")));
    assert_eq!(shelter.dequeue(), Some(cat("b")));
    assert_eq!(shelter.dequeue(), Some(dog("c")));
    assert_eq!(shelter.dequeue(), Some(cat("d")));
    assert_eq!(shelter.dequeue(), Some(dog("e")));
    assert_eq!(shelter.dequeue(), Some(dog("f")));
    assert_eq!(shelter.dequeue(), None);
}

#[test]
fn asking_for_a_kind_skips_the_other() {
    let mut shelter = AnimalShelter::new();
    for animal in [dog("a"), dog("b"), cat("c"), dog("d"), cat("e")] {
        shelter.enqueue(animal);
    }
    assert_eq!(shelter.dequeue_cat().map(|c| c.name), Some("c".to_string()));
    assert_eq!(shelter.n_animals(), 4);
    assert_eq!(shelter.dequeue(), Some(dog("a")));
    assert_eq!(shelter.dequeue_cat().map(|c| c.name), Some("e".to_string()));
    assert_eq!(shelter.dequeue_cat(), None);
    assert_eq!(shelter.dequeue_dog().map(|d| d.name), Some("b".to_string()));
    assert_eq!(shelter.dequeue(), Some(dog("d")));
    assert_eq!(shelter.n_cats(), 0);
    assert_eq!(shelter.n_dogs(), 0);
}
