use amethyst::dispatcher::{
    BuildSystem, DispatcherBuilder, Error, Runnable, Step, SystemBundle,
};
use amethyst::transform::{TransformBundle, TransformSystem};
use amethyst::ui_bundle::{UiBundle, UiSystem};

#[derive(Default)]
struct World;

struct MyResource(bool);

#[derive(Default)]
struct Resources {
    my_resource: Option<MyResource>,
    log: Vec<String>,
    unloads: Vec<u32>,
}

/// A system that records its name when it runs and when its commands are flushed.
#[derive(Debug, Clone, PartialEq)]
struct Named(&'static str);

impl Runnable<World, Resources> for Named {
    fn run(&mut self, _world: &mut World, resources: &mut Resources) {
        resources.log.push(format!("run {}", self.0));
    }

    fn flush_commands(&mut self, _world: &mut World, resources: &mut Resources) {
        resources.log.push(format!("flush {}", self.0));
    }
}

struct SetFlag;

impl Runnable<World, Resources> for SetFlag {
    fn run(&mut self, _world: &mut World, resources: &mut Resources) {
        if let Some(r) = resources.my_resource.as_mut() {
            r.0 = true;
        }
    }

    fn flush_commands(&mut self, _world: &mut World, _resources: &mut Resources) {}
}

struct MyBundle;

impl<S, L, F> SystemBundle<World, Resources, S, L, F> for MyBundle {
    fn load(
        &mut self,
        _world: &mut World,
        resources: &mut Resources,
        _builder: &mut DispatcherBuilder<S, L, F, Self>,
    ) -> Result<(), Error> {
        resources.my_resource = Some(MyResource(false));
        Ok(())
    }

    fn unload(&mut self, _world: &mut World, resources: &mut Resources) -> Result<(), Error> {
        resources.my_resource = None;
        Ok(())
    }
}

#[test]
fn dispatcher_loads_and_unloads() {
    let mut world = World::default();
    let mut resources = Resources::default();

    // Create dispatcher
    let mut dispatcher = DispatcherBuilder::<(), (), (), MyBundle>::default()
        .add_bundle(MyBundle)
        .build(&mut world, &mut resources)
        .ok()
        .unwrap();

    // Ensure that resources were loaded
    assert!(resources.my_resource.is_some());

    // Unload
    assert!(dispatcher.unload(&mut world, &mut resources).is_ok());

    // Ensure that resources were unloaded
    assert!(resources.my_resource.is_none());
}

#[test]
fn dispatcher_legion_system() {
    let mut world = World::default();
    let mut resources = Resources::default();

    resources.my_resource = Some(MyResource(false));

    let mut dispatcher = DispatcherBuilder::<SetFlag, SetFlag, SetFlag, MyBundle>::default()
        .add_system(SetFlag)
        .build(&mut world, &mut resources)
        .ok()
        .unwrap();

    dispatcher.execute(&mut world, &mut resources);

    assert_eq!(resources.my_resource.as_ref().unwrap().0, true);
}

fn names(group: &Vec<Named>) -> Vec<&'static str> {
    group.iter().map(|n| n.0).collect()
}

/// A compact rendering of a schedule, to compare with expected layouts.
fn describe(steps: &Vec<Step<Named, Named, Named>>) -> Vec<String> {
    steps
        .iter()
        .map(|s| match s {
            Step::Systems(g) => format!("Executor({})", names(g).join(",")),
            Step::FlushCmdBuffers => "Flush".to_string(),
            Step::ThreadLocalFn(f) => format!("ThreadLocalFn({})", f.0),
            Step::ThreadLocalSystem(l) => format!("ThreadLocal({})", l.0),
        })
        .collect()
}

type Builder = DispatcherBuilder<Named, Named, Named, MyBundle>;

#[test]
fn parallel_systems_fuse_between_flushes() {
    let mut world = World;
    let mut resources = Resources::default();
    let dispatcher = Builder::new()
        .add_system(Named("A"))
        .add_system(Named("B"))
        .flush()
        .add_system(Named("C"))
        .add_system(Named("D"))
        .build(&mut world, &mut resources)
        .ok()
        .unwrap();
    assert_eq!(
        describe(dispatcher.steps()),
        vec!["Executor(A,B)", "Flush", "Executor(C,D)", "Flush"]
    );
}

#[test]
fn thread_local_splits_groups() {
    let mut world = World;
    let mut resources = Resources::default();
    let dispatcher = Builder::new()
        .add_system(Named("A"))
        .add_thread_local(Named("T"))
        .add_system(Named("B"))
        .build(&mut world, &mut resources)
        .ok()
        .unwrap();
    assert_eq!(
        describe(dispatcher.steps()),
        vec!["Executor(A)", "Flush", "ThreadLocal(T)", "Executor(B)", "Flush"]
    );
}

#[test]
fn thread_local_fn_and_empty_builder() {
    let mut world = World;
    let mut resources = Resources::default();
    let dispatcher = Builder::new()
        .add_thread_local_fn(Named("f"))
        .flush()
        .build(&mut world, &mut resources)
        .ok()
        .unwrap();
    assert_eq!(
        describe(dispatcher.steps()),
        vec!["ThreadLocalFn(f)", "Flush", "Flush"]
    );
    let empty = Builder::new().build(&mut world, &mut resources).ok().unwrap();
    assert_eq!(describe(empty.steps()), vec!["Flush"]);
}

#[test]
fn execute_runs_steps_in_order_and_flushes_groups() {
    let mut world = World;
    let mut resources = Resources::default();
    let mut dispatcher = Builder::new()
        .add_system(Named("A"))
        .add_system(Named("B"))
        .add_thread_local(Named("T"))
        .add_system(Named("C"))
        .build(&mut world, &mut resources)
        .ok()
        .unwrap();
    dispatcher.execute(&mut world, &mut resources);
    assert_eq!(
        resources.log,
        vec!["run A", "run B", "flush A", "flush B", "run T", "run C", "flush C"]
    );
    // The schedule is unchanged by running it.
    assert_eq!(
        describe(dispatcher.steps()),
        vec!["Executor(A,B)", "Flush", "ThreadLocal(T)", "Executor(C)", "Flush"]
    );
}

/// A bundle that adds its own systems and nested bundles, and records unloads.
enum Nested {
    Outer,
    Inner(u32),
    Failing,
    FailingUnload(u32),
}

impl SystemBundle<World, Resources, Named, Named, Named> for Nested {
    fn load(
        &mut self,
        _world: &mut World,
        _resources: &mut Resources,
        builder: &mut DispatcherBuilder<Named, Named, Named, Self>,
    ) -> Result<(), Error> {
        match self {
            Nested::Outer => {
                builder
                    .add_system(Named("outer"))
                    .add_bundle(Nested::Inner(1))
                    .add_thread_local(Named("local"));
                Ok(())
            }
            Nested::Inner(_) => {
                builder.add_system(Named("inner"));
                Ok(())
            }
            Nested::Failing => Err(Error { message: "load failed".to_string() }),
            Nested::FailingUnload(_) => Ok(()),
        }
    }

    fn unload(&mut self, _world: &mut World, resources: &mut Resources) -> Result<(), Error> {
        match self {
            Nested::Outer => {
                resources.unloads.push(0);
                Ok(())
            }
            Nested::Inner(i) => {
                resources.unloads.push(*i);
                Ok(())
            }
            Nested::Failing => Ok(()),
            Nested::FailingUnload(i) => {
                resources.unloads.push(*i);
                Err(Error { message: "unload failed".to_string() })
            }
        }
    }
}

#[test]
fn bundles_are_expanded_in_place_and_unloaded_in_load_order() {
    let mut world = World;
    let mut resources = Resources::default();
    let mut dispatcher = DispatcherBuilder::<Named, Named, Named, Nested>::new()
        .add_system(Named("first"))
        .add_bundle(Nested::Outer)
        .add_bundle(Nested::Inner(2))
        .build(&mut world, &mut resources)
        .ok()
        .unwrap();
    assert_eq!(
        describe(dispatcher.steps()),
        vec!["Executor(first,outer,inner)", "Flush", "ThreadLocal(local)", "Executor(inner)", "Flush"]
    );
    assert_eq!(dispatcher.loaded_bundles().len(), 3);
    assert!(dispatcher.unload(&mut world, &mut resources).is_ok());
    assert_eq!(resources.unloads, vec![0, 1, 2]);
    assert_eq!(dispatcher.unloaded_count(), 3);
    // A second unload touches no bundle again.
    assert!(dispatcher.unload(&mut world, &mut resources).is_ok());
    assert_eq!(resources.unloads, vec![0, 1, 2]);
}

#[test]
fn failing_load_aborts_build() {
    let mut world = World;
    let mut resources = Resources::default();
    let result = DispatcherBuilder::<Named, Named, Named, Nested>::new()
        .add_bundle(Nested::Inner(1))
        .add_bundle(Nested::Failing)
        .build(&mut world, &mut resources);
    match result {
        Err(e) => assert_eq!(e.message, "load failed"),
        Ok(_) => panic!("the build should fail"),
    }
    assert!(resources.unloads.is_empty());
}

#[test]
fn failing_unload_stops_at_first_error() {
    let mut world = World;
    let mut resources = Resources::default();
    let mut dispatcher = DispatcherBuilder::<Named, Named, Named, Nested>::new()
        .add_bundle(Nested::Inner(1))
        .add_bundle(Nested::FailingUnload(2))
        .add_bundle(Nested::Inner(3))
        .build(&mut world, &mut resources)
        .ok()
        .unwrap();
    let result = dispatcher.unload(&mut world, &mut resources);
    assert_eq!(result.err().unwrap().message, "unload failed");
    assert_eq!(resources.unloads, vec![1, 2]);
    assert_eq!(dispatcher.unloaded_count(), 1);
}

impl BuildSystem<TransformSystem> for Named {
    fn build_system(kind: TransformSystem) -> Self {
        match kind {
            TransformSystem::MissingPreviousParent => Named("missing_previous_parent"),
            TransformSystem::ParentUpdate => Named("parent_update"),
            TransformSystem::Transform => Named("transform"),
        }
    }
}

impl BuildSystem<UiSystem> for Named {
    fn build_system(kind: UiSystem) -> Self {
        match kind {
            UiSystem::Loader => Named("ui_loader"),
            UiSystem::Transform => Named("ui_transform"),
            UiSystem::Blink => Named("blink"),
            _ => Named("ui"),
        }
    }
}

#[test]
fn transform_bundle_adds_its_systems_in_order() {
    let mut world = World;
    let mut resources = Resources::default();
    let dispatcher = DispatcherBuilder::<Named, Named, Named, TransformBundle>::new()
        .add_bundle(TransformBundle)
        .build(&mut world, &mut resources)
        .ok()
        .unwrap();
    assert_eq!(
        describe(dispatcher.steps()),
        vec!["Executor(missing_previous_parent,parent_update,transform)", "Flush"]
    );
}

#[test]
fn ui_bundle_adds_sixteen_systems() {
    let mut world = World;
    let mut resources = Resources::default();
    let dispatcher = DispatcherBuilder::<Named, Named, Named, UiBundle<(), u32, ()>>::new()
        .add_bundle(UiBundle::new())
        .build(&mut world, &mut resources)
        .ok()
        .unwrap();
    let steps = dispatcher.steps();
    assert_eq!(steps.len(), 2);
    match &steps[0] {
        Step::Systems(g) => {
            assert_eq!(g.len(), 16);
            assert_eq!(g[0].0, "ui_loader");
            assert_eq!(g[1].0, "ui_transform");
            assert_eq!(g[15].0, "blink");
        }
        _ => panic!("expected an executor group"),
    }
}
