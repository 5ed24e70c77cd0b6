//! An animal shelter that gives out the animal that has waited longest, of
//! either kind or of a kind asked for.
use std::collections::VecDeque;
use vstd::prelude::*;

verus! {

/// A cat, as the shelter knows it.
#[derive(Debug, PartialEq)]
pub struct Cat {
    pub name: String,
    pub declawed: bool,
}

/// A dog, as the shelter knows it.
#[derive(Debug, PartialEq)]
pub struct Dog {
    pub name: String,
    /// In grams.
    pub mass: i32,
}

/// An animal of either kind.
#[derive(Debug, PartialEq)]
pub enum Animal {
    Cat(Cat),
    Dog(Dog),
}

/// The shelter keeps one queue for each kind and stamps every animal with
/// the time of its arrival, so that the fronts of the two queues can be
/// compared.
pub struct AnimalShelter {
    time: u64,
    cats: VecDeque<(Cat, u64)>,
    dogs: VecDeque<(Dog, u64)>,
}

/// Where the first cat stands in a queue of animals; the queue's length if
/// there is no cat.
pub open spec fn first_cat(queue: Seq<Animal>) -> int
    decreases queue.len(),
{
    if queue.len() == 0 {
        0
    } else if queue[0] is Cat {
        0
    } else {
        1 + first_cat(queue.skip(1))
    }
}

/// Where the first dog stands in a queue of animals; the queue's length if
/// there is no dog.
pub open spec fn first_dog(queue: Seq<Animal>) -> int
    decreases queue.len(),
{
    if queue.len() == 0 {
        0
    } else if queue[0] is Dog {
        0
    } else {
        1 + first_dog(queue.skip(1))
    }
}

/// The cats of a queue of animals, in the queue's order.
pub open spec fn cats_of(queue: Seq<Animal>) -> Seq<Cat>
    decreases queue.len(),
{
    if queue.len() == 0 {
        Seq::empty()
    } else {
        match queue[0] {
            Animal::Cat(cat) => seq![cat] + cats_of(queue.skip(1)),
            Animal::Dog(_) => cats_of(queue.skip(1)),
        }
    }
}

/// The dogs of a queue of animals, in the queue's order.
pub open spec fn dogs_of(queue: Seq<Animal>) -> Seq<Dog>
    decreases queue.len(),
{
    if queue.len() == 0 {
        Seq::empty()
    } else {
        match queue[0] {
            Animal::Dog(dog) => seq![dog] + dogs_of(queue.skip(1)),
            Animal::Cat(_) => dogs_of(queue.skip(1)),
        }
    }
}

/// The two stamped queues read as one, by time of arrival.
spec fn merged(cats: Seq<(Cat, u64)>, dogs: Seq<(Dog, u64)>) -> Seq<Animal>
    decreases cats.len() + dogs.len(),
{
    if cats.len() == 0 && dogs.len() == 0 {
        Seq::empty()
    } else if dogs.len() == 0 || (cats.len() > 0 && cats[0].1 <= dogs[0].1) {
        seq![Animal::Cat(cats[0].0)] + merged(cats.skip(1), dogs)
    } else {
        seq![Animal::Dog(dogs[0].0)] + merged(cats, dogs.skip(1))
    }
}

/// The stamps rise along the queue and stay below `time`.
spec fn rising<A>(queue: Seq<(A, u64)>, time: u64) -> bool {
    &&& forall|i: int, j: int| 0 <= i < j < queue.len() ==> queue[i].1 < queue[j].1
    &&& forall|i: int| 0 <= i < queue.len() ==> queue[i].1 < time
}

/// Merging loses no animal and keeps the kinds apart.
proof fn lemma_merged_len(cats: Seq<(Cat, u64)>, dogs: Seq<(Dog, u64)>)
    ensures
        merged(cats, dogs).len() == cats.len() + dogs.len(),
        cats_of(merged(cats, dogs)).len() == cats.len(),
        dogs_of(merged(cats, dogs)).len() == dogs.len(),
    decreases cats.len() + dogs.len(),
{
    let all = merged(cats, dogs);
    if cats.len() == 0 && dogs.len() == 0 {
    } else if dogs.len() == 0 || (cats.len() > 0 && cats[0].1 <= dogs[0].1) {
        lemma_merged_len(cats.skip(1), dogs);
        assert(all.skip(1) =~= merged(cats.skip(1), dogs));
    } else {
        lemma_merged_len(cats, dogs.skip(1));
        assert(all.skip(1) =~= merged(cats, dogs.skip(1)));
    }
}

/// A cat that arrives now stands last in the merged line.
proof fn lemma_merged_push_cat(cats: Seq<(Cat, u64)>, dogs: Seq<(Dog, u64)>, cat: Cat, time: u64)
    requires
        rising(cats, time),
        rising(dogs, time),
    ensures
        merged(cats.push((cat, time)), dogs) == merged(cats, dogs).push(Animal::Cat(cat)),
    decreases cats.len() + dogs.len(),
{
    let more = cats.push((cat, time));
    if cats.len() == 0 && dogs.len() == 0 {
        assert(more.skip(1) =~= cats);
        assert(merged(more, dogs) =~= merged(cats, dogs).push(Animal::Cat(cat)));
    } else if dogs.len() == 0 || (cats.len() > 0 && cats[0].1 <= dogs[0].1) {
        assert(more.skip(1) =~= cats.skip(1).push((cat, time)));
        lemma_merged_push_cat(cats.skip(1), dogs, cat, time);
        assert(merged(more, dogs) =~= merged(cats, dogs).push(Animal::Cat(cat)));
    } else {
        lemma_merged_push_cat(cats, dogs.skip(1), cat, time);
        assert(merged(more, dogs) =~= merged(cats, dogs).push(Animal::Cat(cat)));
    }
}

/// A dog that arrives now stands last in the merged line.
proof fn lemma_merged_push_dog(cats: Seq<(Cat, u64)>, dogs: Seq<(Dog, u64)>, dog: Dog, time: u64)
    requires
        rising(cats, time),
        rising(dogs, time),
    ensures
        merged(cats, dogs.push((dog, time))) == merged(cats, dogs).push(Animal::Dog(dog)),
    decreases cats.len() + dogs.len(),
{
    let more = dogs.push((dog, time));
    if cats.len() == 0 && dogs.len() == 0 {
        assert(more.skip(1) =~= dogs);
        assert(merged(cats, more) =~= merged(cats, dogs).push(Animal::Dog(dog)));
    } else if dogs.len() == 0 || (cats.len() > 0 && cats[0].1 <= dogs[0].1) {
        lemma_merged_push_dog(cats.skip(1), dogs, dog, time);
        assert(merged(cats, more) =~= merged(cats, dogs).push(Animal::Dog(dog)));
    } else {
        assert(more.skip(1) =~= dogs.skip(1).push((dog, time)));
        lemma_merged_push_dog(cats, dogs.skip(1), dog, time);
        assert(merged(cats, more) =~= merged(cats, dogs).push(Animal::Dog(dog)));
    }
}

/// The front of the cats' queue is the first cat of the merged line, and
/// taking it off the queue takes it out of the line.
proof fn lemma_merged_first_cat(cats: Seq<(Cat, u64)>, dogs: Seq<(Dog, u64)>, time: u64)
    requires
        rising(cats, time),
        rising(dogs, time),
    ensures
        cats.len() == 0 ==> first_cat(merged(cats, dogs)) == merged(cats, dogs).len(),
        cats.len() > 0 ==> {
            &&& 0 <= first_cat(merged(cats, dogs)) < merged(cats, dogs).len()
            &&& merged(cats, dogs)[first_cat(merged(cats, dogs))] == Animal::Cat(cats[0].0)
            &&& merged(cats.skip(1), dogs) == merged(cats, dogs).remove(
                first_cat(merged(cats, dogs)),
            )
        },
    decreases dogs.len(),
{
    let all = merged(cats, dogs);
    lemma_merged_len(cats, dogs);
    if cats.len() == 0 && dogs.len() == 0 {
    } else if dogs.len() == 0 || (cats.len() > 0 && cats[0].1 <= dogs[0].1) {
        assert(all.remove(0) =~= merged(cats.skip(1), dogs));
    } else {
        let rest = merged(cats, dogs.skip(1));
        lemma_merged_first_cat(cats, dogs.skip(1), time);
        lemma_merged_len(cats, dogs.skip(1));
        assert(all.skip(1) =~= rest);
        if cats.len() > 0 {
            let at = first_cat(rest);
            let fewer = cats.skip(1);
            assert(merged(fewer, dogs) =~= seq![Animal::Dog(dogs[0].0)] + merged(
                fewer,
                dogs.skip(1),
            )) by {
                if fewer.len() > 0 {
                    assert(fewer[0] == cats[1]);
                }
            }
            assert(all.remove(at + 1) =~= seq![Animal::Dog(dogs[0].0)] + rest.remove(at));
        }
    }
}

/// The front of the dogs' queue is the first dog of the merged line, and
/// taking it off the queue takes it out of the line.
proof fn lemma_merged_first_dog(cats: Seq<(Cat, u64)>, dogs: Seq<(Dog, u64)>, time: u64)
    requires
        rising(cats, time),
        rising(dogs, time),
        forall|i: int, j: int|
            0 <= i < cats.len() && 0 <= j < dogs.len() ==> cats[i].1 != dogs[j].1,
    ensures
        dogs.len() == 0 ==> first_dog(merged(cats, dogs)) == merged(cats, dogs).len(),
        dogs.len() > 0 ==> {
            &&& 0 <= first_dog(merged(cats, dogs)) < merged(cats, dogs).len()
            &&& merged(cats, dogs)[first_dog(merged(cats, dogs))] == Animal::Dog(dogs[0].0)
            &&& merged(cats, dogs.skip(1)) == merged(cats, dogs).remove(
                first_dog(merged(cats, dogs)),
            )
        },
    decreases cats.len(),
{
    let all = merged(cats, dogs);
    lemma_merged_len(cats, dogs);
    if cats.len() == 0 && dogs.len() == 0 {
    } else if dogs.len() == 0 || (cats.len() > 0 && cats[0].1 <= dogs[0].1) {
        let rest = merged(cats.skip(1), dogs);
        lemma_merged_first_dog(cats.skip(1), dogs, time);
        lemma_merged_len(cats.skip(1), dogs);
        assert(all.skip(1) =~= rest);
        if dogs.len() > 0 {
            let at = first_dog(rest);
            let fewer = dogs.skip(1);
            assert(merged(cats, fewer) =~= seq![Animal::Cat(cats[0].0)] + merged(
                cats.skip(1),
                fewer,
            )) by {
                if fewer.len() > 0 {
                    assert(fewer[0] == dogs[1]);
                }
            }
            assert(all.remove(at + 1) =~= seq![Animal::Cat(cats[0].0)] + rest.remove(at));
        }
    } else {
        assert(all.remove(0) =~= merged(cats, dogs.skip(1)));
    }
}

impl View for AnimalShelter {
    type V = Seq<Animal>;

    /// The animals that wait, in the order of their arrival.
    open spec fn view(&self) -> Seq<Animal> {
        self.waiting()
    }
}

impl AnimalShelter {
    /// The animals that wait, in the order of their arrival.
    pub closed spec fn waiting(&self) -> Seq<Animal> {
        merged(self.cats@, self.dogs@)
    }

    /// How many animals the shelter has taken in since it opened.
    pub closed spec fn taken_in(&self) -> nat {
        self.time as nat
    }

    /// The invariant of the shelter: along each queue the stamps of arrival
    /// rise, no stamp is used twice, and the animals can be counted.
    pub closed spec fn wf(&self) -> bool {
        &&& rising(self.cats@, self.time)
        &&& rising(self.dogs@, self.time)
        &&& forall|i: int, j: int|
            0 <= i < self.cats@.len() && 0 <= j < self.dogs@.len() ==> self.cats@[i].1
                != self.dogs@[j].1
        &&& self.cats@.len() + self.dogs@.len() <= usize::MAX
    }

    /// An empty shelter.
    pub fn new() -> (shelter: Self)
        ensures
            shelter.wf(),
            shelter@ == Seq::<Animal>::empty(),
            shelter.taken_in() == 0,
    {
        Self { time: 0, cats: VecDeque::new(), dogs: VecDeque::new() }
    }

    /// The number of cats that wait.
    pub fn n_cats(&self) -> (count: usize)
        ensures
            count == cats_of(self@).len(),
    {
        proof {
            lemma_merged_len(self.cats@, self.dogs@);
        }
        self.cats.len()
    }

    /// The number of dogs that wait.
    pub fn n_dogs(&self) -> (count: usize)
        ensures
            count == dogs_of(self@).len(),
    {
        proof {
            lemma_merged_len(self.cats@, self.dogs@);
        }
        self.dogs.len()
    }

    /// The number of animals that wait.
    pub fn n_animals(&self) -> (count: usize)
        requires
            self.wf(),
        ensures
            count == self@.len(),
            count == cats_of(self@).len() + dogs_of(self@).len(),
    {
        proof {
            lemma_merged_len(self.cats@, self.dogs@);
        }
        self.n_cats() + self.n_dogs()
    }

    /// Takes an animal in; it joins the end of the line.
    pub fn enqueue(&mut self, animal: Animal)
        requires
            old(self).wf(),
            old(self)@.len() < usize::MAX,
            old(self).taken_in() < u64::MAX,
        ensures
            final(self).wf(),
            final(self)@ == old(self)@.push(animal),
            final(self).taken_in() == old(self).taken_in() + 1,
    {
        proof {
            lemma_merged_len(self.cats@, self.dogs@);
        }
        let now = self.time;
        match animal {
            Animal::Cat(cat) => {
                proof {
                    lemma_merged_push_cat(self.cats@, self.dogs@, cat, now);
                }
                self.cats.push_back((cat, now));
            },
            Animal::Dog(dog) => {
                proof {
                    lemma_merged_push_dog(self.cats@, self.dogs@, dog, now);
                }
                self.dogs.push_back((dog, now));
            },
        }
        self.time += 1;
    }

    /// Gives out the cat that has waited longest, if there is a cat. The
    /// other animals keep their places.
    pub fn dequeue_cat(&mut self) -> (cat: Option<Cat>)
        requires
            old(self).wf(),
        ensures
            final(self).wf(),
            final(self).taken_in() == old(self).taken_in(),
            match cat {
                Some(cat) => {
                    &&& 0 <= first_cat(old(self)@) < old(self)@.len()
                    &&& old(self)@[first_cat(old(self)@)] == Animal::Cat(cat)
                    &&& final(self)@ == old(self)@.remove(first_cat(old(self)@))
                },
                None => first_cat(old(self)@) == old(self)@.len() && final(self)@ == old(self)@,
            },
    {
        proof {
            lemma_merged_first_cat(self.cats@, self.dogs@, self.time);
        }
        match self.cats.pop_front() {
            Some((cat, _)) => {
                assert(self.cats@ =~= old(self).cats@.skip(1));
                Some(cat)
            },
            None => None,
        }
    }

    /// Gives out the dog that has waited longest, if there is a dog. The
    /// other animals keep their places.
    pub fn dequeue_dog(&mut self) -> (dog: Option<Dog>)
        requires
            old(self).wf(),
        ensures
            final(self).wf(),
            final(self).taken_in() == old(self).taken_in(),
            match dog {
                Some(dog) => {
                    &&& 0 <= first_dog(old(self)@) < old(self)@.len()
                    &&& old(self)@[first_dog(old(self)@)] == Animal::Dog(dog)
                    &&& final(self)@ == old(self)@.remove(first_dog(old(self)@))
                },
                None => first_dog(old(self)@) == old(self)@.len() && final(self)@ == old(self)@,
            },
    {
        proof {
            lemma_merged_first_dog(self.cats@, self.dogs@, self.time);
        }
        match self.dogs.pop_front() {
            Some((dog, _)) => {
                assert(self.dogs@ =~= old(self).dogs@.skip(1));
                Some(dog)
            },
            None => None,
        }
    }

    /// Gives out the animal that has waited longest, whatever its kind.
    pub fn dequeue(&mut self) -> (animal: Option<Animal>)
        requires
            old(self).wf(),
        ensures
            final(self).wf(),
            final(self).taken_in() == old(self).taken_in(),
            match animal {
                Some(animal) => {
                    &&& old(self)@.len() > 0
                    &&& animal == old(self)@[0]
                    &&& final(self)@ == old(self)@.skip(1)
                },
                None => old(self)@.len() == 0 && final(self)@ == old(self)@,
            },
    {
        proof {
            lemma_merged_len(self.cats@, self.dogs@);
        }
        let cat_first = if self.cats.len() == 0 {
            false
        } else if self.dogs.len() == 0 {
            true
        } else {
            self.cats[0].1 <= self.dogs[0].1
        };
        if cat_first {
            match self.cats.pop_front() {
                Some((cat, _)) => {
                    assert(self.cats@ =~= old(self).cats@.skip(1));
                    assert(old(self)@.skip(1) =~= self@);
                    Some(Animal::Cat(cat))
                },
                None => None,
            }
        } else {
            match self.dogs.pop_front() {
                Some((dog, _)) => {
                    assert(self.dogs@ =~= old(self).dogs@.skip(1));
                    assert(old(self)@.skip(1) =~= self@);
                    Some(Animal::Dog(dog))
                },
                None => None,
            }
        }
    }
}

} // verus!
