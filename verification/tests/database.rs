use archive_core::backup::{newest, select_backup, walk, Backup, YearFolder};
use archive_core::codec::{decode, encode, parsed_or_corrupted, temp_name};
use archive_core::database::{
    check_closed, check_open, create_check, instant_of_newest_noncurrupted, load_newest, load_newest_noncurrupted,
    path_from_instant, rollback_info, store_plan, year_name, Location,
};
use archive_core::error::{Error, ErrorKind};
use archive_core::time::Instant;
use std::cell::Cell;
use std::collections::HashMap;

type DataType1 = usize;
type DataType2 = Vec<usize>;
type DataType3 = (String, Vec<Vec<f32>>);

fn gen_data1() -> DataType1 {
    92810
}

fn gen_data2() -> DataType2 {
    vec![92810, 213, 1, 321312, 4, 0]
}

fn gen_data3() -> DataType3 {
    (
        "Some persone".into(),
        vec![vec![2., 0., 1.], vec![0., 1e10, -5.], vec![1.3, 0.3, -1.]],
    )
}

/// A store directory held in memory: the listing of its folders and the
/// bytes of its files.
struct MemoryDir {
    folders: Vec<YearFolder>,
    contents: HashMap<(String, String), Vec<u8>>,
}

impl MemoryDir {
    fn new() -> Self {
        MemoryDir {
            folders: vec![],
            contents: HashMap::new(),
        }
    }

    fn write(&mut self, folder: &str, file: &str, bytes: Vec<u8>) {
        if !self.folders.iter().any(|f| f.name == folder) {
            self.folders.push(YearFolder {
                name: folder.to_string(),
                files: vec![],
            });
        }
        let entry = self.folders.iter_mut().find(|f| f.name == folder).unwrap();
        if !entry.files.iter().any(|f| f == file) {
            entry.files.push(file.to_string());
        }
        self.contents
            .insert((folder.to_string(), file.to_string()), bytes);
    }

    fn remove(&mut self, folder: &str, file: &str) {
        let entry = self.folders.iter_mut().find(|f| f.name == folder).unwrap();
        entry.files.retain(|f| f != file);
        self.contents
            .remove(&(folder.to_string(), file.to_string()));
    }

    fn count_files(&self) -> usize {
        self.contents.len()
    }

    fn is_empty(&self) -> bool {
        self.folders.is_empty()
    }

    /// Creates a store in the directory and writes the data as its first
    /// snapshot.
    fn create_data<T: serde::Serialize>(&mut self, data: T) -> Result<Location, Error> {
        create_check(Some(self.folders.len()))?;
        Ok(self.save_data(&data))
    }

    fn save_at<T: serde::Serialize>(&mut self, instant: &Instant, data: &T) -> Location {
        let location = path_from_instant(instant);
        let payload = bincode::serialize(data).unwrap();
        let bytes = encode(&payload).unwrap();
        let temp = temp_name(&location.file);
        self.write(&location.folder, &temp, bytes);
        let bytes = self
            .contents
            .remove(&(location.folder.clone(), temp.clone()))
            .unwrap();
        self.remove_listing(&location.folder, &temp);
        self.write(&location.folder, &location.file, bytes);
        location
    }

    fn remove_listing(&mut self, folder: &str, file: &str) {
        let entry = self.folders.iter_mut().find(|f| f.name == folder).unwrap();
        entry.files.retain(|f| f != file);
    }

    fn save_data<T: serde::Serialize>(&mut self, data: &T) -> Location {
        self.save_at(&Instant::now(), data)
    }

    fn load_data<T: serde::de::DeserializeOwned>(
        &self,
        folder: &str,
        file: &str,
    ) -> Result<T, Error> {
        let bytes = match self.contents.get(&(folder.to_string(), file.to_string())) {
            Some(bytes) => bytes,
            None => return Err(Box::new(ErrorKind::NotFound)),
        };
        let payload = decode(bytes)?;
        parsed_or_corrupted(bincode::deserialize(&payload).ok())
    }

    fn load<T: serde::de::DeserializeOwned>(&self, backup: &Backup) -> Result<T, Error> {
        self.load_data(&backup.folder, &backup.file)
    }

    /// Writes a snapshot as a store does: deletes what the plan dooms,
    /// then writes the file.
    fn store<T: serde::Serialize>(&mut self, now: &Instant, data: &T) -> Location {
        let order = walk(&self.folders);
        let plan = store_plan(&order, now);
        for place in plan.doomed.iter() {
            let backup = &order[*place];
            self.remove(&backup.folder, &backup.file);
        }
        self.save_at(now, data)
    }
}

#[test]
fn load_newest_from_empty_dir() {
    let tempdir = MemoryDir::new();

    let result = load_newest::<DataType1, _>(&tempdir.folders, |b| tempdir.load(b));
    assert_eq!(format!("{:?}", result), "Err(NotFound)");

    let result = load_newest::<DataType2, _>(&tempdir.folders, |b| tempdir.load(b));
    assert_eq!(format!("{:?}", result), "Err(NotFound)");

    let result = load_newest::<DataType3, _>(&tempdir.folders, |b| tempdir.load(b));
    assert_eq!(format!("{:?}", result), "Err(NotFound)");
}

#[test]
fn load_newest_noncorrupted_from_empty_dir() {
    let tempdir = MemoryDir::new();

    let result = load_newest_noncurrupted::<DataType1, _>(&tempdir.folders, |b| tempdir.load(b));
    assert_eq!(format!("{:?}", result), "Err(NotFound)");

    let result = load_newest_noncurrupted::<DataType2, _>(&tempdir.folders, |b| tempdir.load(b));
    assert_eq!(format!("{:?}", result), "Err(NotFound)");

    let result = load_newest_noncurrupted::<DataType3, _>(&tempdir.folders, |b| tempdir.load(b));
    assert_eq!(format!("{:?}", result), "Err(NotFound)");
}

#[test]
fn instant_of_newest_noncorrupted_from_empty_dir() {
    let tempdir = MemoryDir::new();

    let result =
        instant_of_newest_noncurrupted::<DataType1, _>(&tempdir.folders, |b| tempdir.load(b));
    assert_eq!(format!("{:?}", result), "Err(NotFound)");

    let result =
        instant_of_newest_noncurrupted::<DataType2, _>(&tempdir.folders, |b| tempdir.load(b));
    assert_eq!(format!("{:?}", result), "Err(NotFound)");

    let result =
        instant_of_newest_noncurrupted::<DataType3, _>(&tempdir.folders, |b| tempdir.load(b));
    assert_eq!(format!("{:?}", result), "Err(NotFound)");
}

#[test]
fn history_load_data_from_empty_dir() {
    let tempdir = MemoryDir::new();

    let result = load_newest::<DataType1, _>(&tempdir.folders, |b| tempdir.load(b));
    assert_eq!(format!("{:?}", result), "Err(NotFound)");

    let result = load_newest::<DataType2, _>(&tempdir.folders, |b| tempdir.load(b));
    assert_eq!(format!("{:?}", result), "Err(NotFound)");

    let result = load_newest::<DataType3, _>(&tempdir.folders, |b| tempdir.load(b));
    assert_eq!(format!("{:?}", result), "Err(NotFound)");
}

#[test]
fn mod_load_data_from_empty_dir() {
    let tempdir = MemoryDir::new();

    let result = load_newest_noncurrupted::<DataType1, _>(&tempdir.folders, |b| tempdir.load(b));
    assert_eq!(format!("{:?}", result), "Err(NotFound)");

    let result = load_newest_noncurrupted::<DataType2, _>(&tempdir.folders, |b| tempdir.load(b));
    assert_eq!(format!("{:?}", result), "Err(NotFound)");

    let result = load_newest_noncurrupted::<DataType3, _>(&tempdir.folders, |b| tempdir.load(b));
    assert_eq!(format!("{:?}", result), "Err(NotFound)");
}

#[test]
fn mod_save_data_creates_year_folder() {
    let mut tempdir = MemoryDir::new();

    let now = Instant::now();
    tempdir.save_data(&gen_data1());

    let year_folder = now.year().to_string();
    assert!(tempdir.folders.iter().any(|f| f.name == year_folder));
}

#[test]
fn mod_saved_data_can_be_deserialized() {
    let mut tempdir = MemoryDir::new();

    let saved_data = gen_data3();
    let path = tempdir.save_data(&saved_data);
    let loaded_data = tempdir
        .load_data::<DataType3>(&path.folder, &path.file)
        .unwrap();

    assert_eq!(saved_data, loaded_data);
}

#[test]
fn mod_multiple_save_data_calls_on_same_second_overlap() {
    let mut tempdir = MemoryDir::new();
    let now = Instant::ymd_hms(2022, 3, 4, 5, 6, 7);

    let path_1 = tempdir.save_at(&now, &gen_data1());
    let path_2 = tempdir.save_at(&now, &gen_data2());
    let path_3 = tempdir.save_at(&now, &gen_data3());

    assert!(path_1.file == path_2.file && path_2.file == path_3.file);
    assert_eq!(1, tempdir.count_files());
    let loaded_data_3 = tempdir
        .load_data::<DataType3>(&path_3.folder, &path_3.file)
        .unwrap();
    assert_eq!(gen_data3(), loaded_data_3);
}

#[test]
fn load_newest_use_case() {
    let mut tempdir = MemoryDir::new();

    let saved_data_1 = gen_data1();
    let saved_data_2 = gen_data2();
    let saved_data_3 = gen_data3();

    tempdir.save_data(&saved_data_1);
    assert_eq!(
        load_newest::<DataType1, _>(&tempdir.folders, |b| tempdir.load(b)).unwrap(),
        saved_data_1
    );

    tempdir.save_at(&Instant::ymd(2999, 1, 1), &saved_data_2);
    assert_eq!(
        load_newest::<DataType2, _>(&tempdir.folders, |b| tempdir.load(b)).unwrap(),
        saved_data_2
    );

    tempdir.save_at(&Instant::ymd(2999, 1, 2), &saved_data_3);
    assert_eq!(
        load_newest::<DataType3, _>(&tempdir.folders, |b| tempdir.load(b)).unwrap(),
        saved_data_3
    );
}

#[test]
fn load_newest_when_data_is_corrupted() {
    let mut tempdir = MemoryDir::new();

    tempdir.save_at(&Instant::ymd_hms(2022, 5, 1, 10, 0, 0), &gen_data2());
    let path = tempdir.save_at(&Instant::ymd_hms(2022, 5, 1, 10, 0, 2), &gen_data2());

    // Corrupt data
    tempdir.write(&path.folder, &path.file, vec![2, 1, 5, 0]);

    let error = load_newest::<DataType3, _>(&tempdir.folders, |b| tempdir.load(b));
    assert_eq!(format!("{:?}", error), "Err(DataIsCorrupted)");
}

#[test]
fn load_newest_noncorrupted_data_use_case() {
    let mut tempdir = MemoryDir::new();

    let saved_data = gen_data3();

    tempdir.save_at(&Instant::ymd_hms(2022, 5, 1, 10, 0, 0), &saved_data);
    let path = tempdir.save_at(&Instant::ymd_hms(2022, 5, 1, 10, 0, 2), &saved_data);

    // Corrupt data
    tempdir.write(&path.folder, &path.file, vec![2, 1, 5, 0]);

    let data =
        load_newest_noncurrupted::<DataType3, _>(&tempdir.folders, |b| tempdir.load(b)).unwrap();
    assert_eq!(data, saved_data);
}

#[test]
fn instant_of_newest_noncorrupted_data_use_case() {
    let mut tempdir = MemoryDir::new();

    let saved_data = gen_data3();
    let first = Instant::ymd_hms(2022, 5, 1, 10, 0, 0);

    tempdir.save_at(&first, &saved_data);
    let path = tempdir.save_at(&Instant::ymd_hms(2022, 5, 1, 10, 0, 2), &saved_data);

    // Corrupt data
    tempdir.write(&path.folder, &path.file, vec![2, 1, 5, 0]);

    let instant =
        instant_of_newest_noncurrupted::<DataType3, _>(&tempdir.folders, |b| tempdir.load(b))
            .unwrap();
    assert_eq!(first, instant);
}

#[test]
fn datamodel_file_path_use_case() {
    let instant_1 = Instant::from_utc("2021_05_06 13_52_05").unwrap();
    let instant_2 = Instant::from_utc("2021_05_06 13_51_05").unwrap();
    let instant_3 = Instant::from_utc("2020_05_06 13_51_05").unwrap();
    let path = path_from_instant(&instant_1);
    assert_eq!(("2021", instant_1.str() + ".bin"), (path.folder.as_str(), path.file));
    let path = path_from_instant(&instant_2);
    assert_eq!(("2021", instant_2.str() + ".bin"), (path.folder.as_str(), path.file));
    let path = path_from_instant(&instant_3);
    assert_eq!(("2020", instant_3.str() + ".bin"), (path.folder.as_str(), path.file));
    assert_eq!("2021_05_06 13_52_05.bin", path_from_instant(&instant_1).file);
}

#[test]
fn year_names() {
    assert_eq!("0", year_name(0));
    assert_eq!("7", year_name(7));
    assert_eq!("2024", year_name(2024));
    assert_eq!("-44", year_name(-44));
    assert_eq!("-2147483648", year_name(i32::MIN));
    assert_eq!("2147483647", year_name(i32::MAX));
}

#[test]
fn datamodel_select_database_backup_use_case() {
    let instant_1 = Instant::from_utc("2021_05_06 13_52_05").unwrap();
    let instant_2 = Instant::from_utc("2021_05_06 13_51_05").unwrap();
    let instant_3 = Instant::from_utc("2020_05_06 13_51_05").unwrap();

    let mut tempdir = MemoryDir::new();
    tempdir.write("2021", "2021_05_07 13h 51m 05s.bin", vec![]);
    tempdir.write("2021", (instant_2.str() + ".bin").as_str(), vec![]);
    tempdir.write("2021", (instant_1.str() + ".bin").as_str(), vec![]);
    tempdir.write("2020", (instant_3.str() + ".bin").as_str(), vec![]);
    let order = walk(&tempdir.folders);

    // Select first
    assert_eq!(
        select_backup(&order, |backup| {
            assert!(backup.instant == instant_1, "Newest backup is not first");
            Some(123)
        })
        .unwrap(),
        123
    );

    // Select second
    let index = Cell::new(0);
    assert_eq!(
        select_backup(&order, |backup| {
            if backup.instant == instant_2 {
                assert!(index.get() == 1, "Backups are not in order");
                return Some("abAca");
            }
            assert!(index.get() < 1, "Backups are not in order");
            index.set(index.get() + 1);
            None
        })
        .unwrap(),
        "abAca"
    );

    // Select
    let index = Cell::new(0);
    assert_eq!(
        select_backup(&order, |backup| {
            if backup.instant == instant_3 {
                assert!(index.get() == 2, "Backups are not in order");
                return Some(backup.instant);
            }
            assert!(index.get() < 2, "Backups are not in order");
            index.set(index.get() + 1);
            None
        })
        .unwrap(),
        instant_3
    );
}

#[test]
fn newest_and_walk_across_two_years() {
    let t1 = Instant::ymd_hms(2020, 12, 31, 23, 59, 59);
    let t2 = Instant::ymd_hms(2021, 1, 1, 0, 0, 0);
    let t3 = Instant::ymd_hms(2021, 6, 15, 12, 0, 0);
    let mut tempdir = MemoryDir::new();
    tempdir.write(".lock", "", vec![]);
    tempdir.folders[0].files.clear();
    tempdir.save_at(&t2, &2u8);
    tempdir.save_at(&t1, &1u8);
    tempdir.save_at(&t3, &3u8);

    let first = newest(&tempdir.folders).unwrap();
    assert_eq!(("2021", "2021_06_15 12_00_00.bin"), (first.folder.as_str(), first.file.as_str()));
    assert_eq!(t3, first.instant);

    let order = walk(&tempdir.folders);
    let instants: Vec<Instant> = order.iter().map(|b| b.instant).collect();
    assert_eq!(vec![t3, t2, t1], instants);
    let folders: Vec<&str> = order.iter().map(|b| b.folder.as_str()).collect();
    assert_eq!(vec!["2021", "2021", "2020"], folders);
}

#[test]
fn on_store_old_backups_are_deleted() {
    let mut tempdir = MemoryDir::new();

    tempdir.save_at(&Instant::ymd(202, 11, 3), &5f32);
    tempdir.save_at(&Instant::ymd(2020, 11, 3), &4.3f32);
    tempdir.save_at(&Instant::ymd(2020, 11, 6), &4.2f32);
    tempdir.save_at(&Instant::ymd(2020, 11, 7), &4.1f32);
    tempdir.save_at(&Instant::ymd_hms(2020, 11, 7, 9, 0, 0), &4f32);
    tempdir.save_at(&Instant::ymd(2020, 12, 3), &3f32);
    tempdir.save_at(&Instant::now().truncate_time(), &2f32);
    assert_eq!(7, tempdir.count_files());

    // Load and store the database
    let data: f32 = load_newest(&tempdir.folders, |b| tempdir.load(b)).unwrap();
    assert_eq!(2., data);
    tempdir.store(&Instant::now(), &1f32);

    // Check that the cleanup has worked
    let mut index = 0.;
    for backup in walk(&tempdir.folders) {
        index += 1.;
        assert_eq!(index, tempdir.load::<f32>(&backup).unwrap());
    }
    assert_eq!(5., index);
}

#[test]
fn rollback_on_empty_dir() {
    let tempdir = MemoryDir::new();
    let error = load_newest_noncurrupted::<i32, _>(&tempdir.folders, |b| tempdir.load(b));
    assert_eq!("Err(NotFound)", format!("{:?}", error));
}

#[test]
fn rollback_on_non_corrupted_database() {
    let mut tempdir = MemoryDir::new();
    tempdir.store(&Instant::now(), &gen_data3());

    let data =
        load_newest_noncurrupted::<DataType3, _>(&tempdir.folders, |b| tempdir.load(b)).unwrap();
    assert_eq!(gen_data3(), data);
}

#[test]
fn rollback_on_corrupted_database() {
    let mut tempdir = MemoryDir::new();
    tempdir.store(&Instant::ymd_hms(2022, 5, 1, 10, 0, 0), &gen_data3());

    // Insert corrupted data
    tempdir.save_at(&Instant::ymd_hms(2022, 5, 1, 10, 0, 2), &123u8);

    let data =
        load_newest_noncurrupted::<DataType3, _>(&tempdir.folders, |b| tempdir.load(b)).unwrap();
    assert_eq!(gen_data3(), data);
}

#[test]
fn rollback_info_on_empty_dir() {
    let tempdir = MemoryDir::new();
    let error = rollback_info::<i32, _>(&tempdir.folders, |b| tempdir.load(b));
    assert_eq!("Err(NotFound)", format!("{:?}", error));
}

#[test]
fn rollback_info_on_non_corrupted_database() {
    let mut tempdir = MemoryDir::new();

    let before = Instant::now();
    tempdir.store(&Instant::now(), &gen_data3());
    let after = Instant::now();

    let info = rollback_info::<DataType3, _>(&tempdir.folders, |b| tempdir.load(b)).unwrap();
    assert_eq!(info.newest_instant, info.rollback_instant);
    assert!(before <= info.newest_instant);
    assert!(info.newest_instant <= after);
}

#[test]
fn rollback_info_on_corrupted_database() {
    let mut tempdir = MemoryDir::new();

    let good = Instant::ymd_hms(2022, 5, 1, 10, 0, 0);
    let bad = Instant::ymd_hms(2022, 5, 1, 10, 0, 2);
    tempdir.store(&good, &gen_data3());

    // Insert corrupted data
    tempdir.save_at(&bad, &123u8);

    let info = rollback_info::<DataType3, _>(&tempdir.folders, |b| tempdir.load(b)).unwrap();
    assert_ne!(info.newest_instant, info.rollback_instant);
    assert_eq!(good, info.rollback_instant);
    assert_eq!(bad, info.newest_instant);
}

#[test]
fn create_database_on_non_empty_dir() {
    let error = create_check(Some(1));
    assert_eq!(format!("{:?}", error), "Err(AlreadyExist)");
}

#[test]
fn create_database_on_empty_dir() {
    assert_eq!(format!("{:?}", create_check(Some(0))), "Ok(false)");
}

#[test]
fn create_database_on_non_existing_dir() {
    assert_eq!(format!("{:?}", create_check(None)), "Ok(true)");
}

#[test]
fn create_data_on_empty_dir() {
    let mut dir1 = MemoryDir::new();
    assert!(dir1.create_data(gen_data1()).is_ok());
    assert!(!dir1.is_empty());

    let mut dir2 = MemoryDir::new();
    assert!(dir2.create_data(gen_data2()).is_ok());
    assert!(!dir2.is_empty());

    let mut dir3 = MemoryDir::new();
    assert!(dir3.create_data(gen_data3()).is_ok());
    assert!(!dir3.is_empty());
}

#[test]
fn create_data_on_non_empty_dir() {
    let mut tempdir = MemoryDir::new();
    assert!(tempdir.create_data(gen_data1()).is_ok());

    assert!(tempdir.create_data(gen_data1()).is_err());
    assert!(tempdir.create_data(gen_data2()).is_err());
    assert!(tempdir.create_data(gen_data3()).is_err());
    assert_eq!(1, tempdir.count_files());
}

#[test]
fn one_database_is_open_at_a_time() {
    assert_eq!("Ok(())", format!("{:?}", check_closed(false)));
    assert_eq!("Err(AlreadyOpen)", format!("{:?}", check_closed(true)));
    assert_eq!("Ok(())", format!("{:?}", check_open(true)));
    assert_eq!("Err(NotFound)", format!("{:?}", check_open(false)));
}

#[test]
fn mod_select_database_backup_use_case() {
    let instant_1 = Instant::from_utc("2021_05_06 13_52_05").unwrap();
    let instant_2 = Instant::from_utc("2021_05_06 13_51_05").unwrap();
    let instant_3 = Instant::from_utc("2020_05_06 13_51_05").unwrap();

    let mut tempdir = MemoryDir::new();
    tempdir.write("2020", (instant_3.str() + ".bin").as_str(), vec![]);
    tempdir.write("2021", "2021_05_07 13h 51m 05s.bin", vec![]);
    tempdir.write("2021", (instant_1.str() + ".bin").as_str(), vec![]);
    tempdir.write("2021", (instant_2.str() + ".bin").as_str(), vec![]);
    let order = walk(&tempdir.folders);

    // Select first
    assert_eq!(
        select_backup(&order, |backup| {
            assert!(backup.instant == instant_1, "Newest backup is not first");
            Some(123)
        })
        .unwrap(),
        123
    );

    // Select second
    let index = Cell::new(0);
    assert_eq!(
        select_backup(&order, |backup| {
            if backup.instant == instant_2 {
                assert!(index.get() == 1, "Backups are not in order");
                return Some("abAca");
            }
            assert!(index.get() < 1, "Backups are not in order");
            index.set(index.get() + 1);
            None
        })
        .unwrap(),
        "abAca"
    );

    // Select
    let index = Cell::new(0);
    assert_eq!(
        select_backup(&order, |backup| {
            if backup.instant == instant_3 {
                assert!(index.get() == 2, "Backups are not in order");
                return Some(backup.instant);
            }
            assert!(index.get() < 2, "Backups are not in order");
            index.set(index.get() + 1);
            None
        })
        .unwrap(),
        instant_3
    );

    // Select none
    assert_eq!(None, select_backup(&order, |_| None::<u8>));
    assert_eq!(3, order.len());
}

#[test]
fn open_database_on_empty_dir() {
    let tempdir = MemoryDir::new();
    let error = load_newest::<i32, _>(&tempdir.folders, |b| tempdir.load(b));
    assert_eq!("Err(NotFound)", format!("{:?}", error));
}

#[test]
fn creates_data_only_on_store() {
    let mut tempdir = MemoryDir::new();
    assert!(create_check(Some(tempdir.folders.len())).is_ok());
    assert_eq!(tempdir.count_files(), 0);

    tempdir.store(&Instant::now(), &gen_data2());
    assert_eq!(tempdir.count_files(), 1);
}

#[test]
fn store_many_time_on_same_second_merges_data() {
    let mut tempdir = MemoryDir::new();
    let now = Instant::now();

    let path1 = tempdir.store(&now, &gen_data3());
    let path2 = tempdir.store(&now, &gen_data3());
    let path3 = tempdir.store(&now, &gen_data3());
    let path4 = tempdir.store(&now, &gen_data3());

    assert_eq!(tempdir.count_files(), 1);
    assert_eq!(path1.folder, path2.folder);
    assert_eq!(path2.folder, path3.folder);
    assert_eq!(path3.folder, path4.folder);
    assert_eq!(path1.file, path4.file);
}

#[test]
fn store_default_and_open_twice() {
    let mut tempdir = MemoryDir::new();

    tempdir.store(&Instant::ymd_hms(2022, 5, 1, 10, 0, 0), &DataType3::default());
    let data: DataType3 = load_newest(&tempdir.folders, |b| tempdir.load(b)).unwrap();
    assert_eq!(data, Default::default());

    tempdir.store(&Instant::ymd_hms(2022, 5, 1, 10, 0, 1), &gen_data3());
    let data: DataType3 = load_newest(&tempdir.folders, |b| tempdir.load(b)).unwrap();
    assert_eq!(data, gen_data3());
}
