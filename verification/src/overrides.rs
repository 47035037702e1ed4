use vstd::prelude::*;

use crate::names::compare_str;

verus! {

/// Thaliak's prerequisite edges are wrong or absent for some versions. Each entry names a
/// version and what it follows instead: the version it replaces the graph's pick with, or
/// none where the chain ends there.
pub open spec fn override_entries(slug: Seq<char>) -> Option<Seq<(&'static str, Option<&'static str>)>> {
    if slug == "4e9a232b"@ {
        Some(seq![
            ("2026.08.19.0000.0000", Some("2026.08.11.0000.0000")),
            ("2026.08.31.0000.0000", Some("2026.08.19.0000.0000")),
            ("2026.09.01.0000.0000", Some("2026.08.31.0000.0000")),
            ("2024.05.31.0000.0000", Some("H2024.05.31.0000.0000ag")),
            ("H2024.05.31.0000.0000b", Some("H2024.05.31.0000.0000a")),
            ("H2024.05.31.0000.0000aa", Some("H2024.05.31.0000.0000z")),
            ("2024.04.23.0000.0000", Some("2024.04.22.0000.0001")),
            ("2024.04.22.0000.0001", Some("2024.03.27.0000.0000")),
            ("2023.06.14.0000.0000", Some("2023.06.13.0000.0001")),
            ("2023.06.13.0000.0001", Some("2023.05.11.0000.0001")),
            ("2017.06.06.0000.0001", Some("H2017.06.06.0000.0001m")),
            ("H2017.06.06.0000.0001a", None),
            ("2013.06.29.0000.0000", None),
            ("2013.06.29.0001.0000", Some("2013.06.29.0000.0000")),
            ("2013.06.29.0002.0000", Some("2013.06.29.0001.0000")),
            ("2013.06.29.0003.0000", Some("2013.06.29.0002.0000")),
            ("2013.06.29.0004.0000", Some("2013.06.29.0003.0000")),
            ("2013.08.09.0000.0000", Some("2013.06.29.0004.0000")),
            ("2013.08.09.0001.0000", Some("2013.08.09.0000.0000")),
            ("2013.11.26.0000.0002", Some("2013.08.09.0001.0000")),
            ("2013.12.05.0000.0000", Some("2013.11.26.0000.0002")),
            ("2013.12.05.0001.0000", Some("2013.12.05.0000.0000")),
            ("2014.03.06.0000.0002", Some("2013.12.05.0001.0000")),
            ("2014.05.12.0000.0002", Some("2014.03.06.0000.0002")),
            ("2014.05.27.0000.0000", Some("H2014.05.27.0000.0000g")),
            ("H2014.05.27.0000.0000g", Some("H2014.05.27.0000.0000f")),
            ("H2014.05.27.0000.0000f", Some("H2014.05.27.0000.0000e")),
            ("H2014.05.27.0000.0000e", Some("H2014.05.27.0000.0000d")),
            ("H2014.05.27.0000.0000d", Some("H2014.05.27.0000.0000c")),
            ("H2014.05.27.0000.0000c", Some("H2014.05.27.0000.0000b")),
            ("H2014.05.27.0000.0000b", Some("H2014.05.27.0000.0000a")),
            ("H2014.05.27.0000.0000a", None),
            ("2014.06.21.0000.0001", Some("2014.05.27.0000.0000")),
            ("2014.06.25.0000.0000", Some("2014.06.21.0000.0001")),
            ("2014.06.25.0001.0000", Some("2014.06.25.0000.0000")),
            ("2014.10.03.0000.0002", Some("2014.06.25.0001.0000")),
            ("2014.10.17.0000.0000", Some("2014.10.03.0000.0002")),
            ("2014.10.17.0001.0000", Some("2014.10.17.0000.0000")),
            ("2015.02.10.0000.0001", Some("2014.10.17.0001.0000")),
            ("2015.05.20.0000.0002", Some("2015.02.10.0000.0001")),
            ("2015.05.26.0000.0000", Some("2015.05.20.0000.0002")),
            ("2015.05.26.0001.0000", Some("2015.05.26.0000.0000")),
            ("2015.05.26.0002.0000", Some("2015.05.26.0001.0000")),
            ("2015.07.25.0000.0002", Some("2015.05.26.0002.0000")),
            ("2015.10.27.0000.0001", Some("2015.07.25.0000.0002")),
            ("2015.11.14.0000.0001", Some("2015.10.27.0000.0001")),
            ("2015.11.28.0000.0001", Some("2015.11.14.0000.0001")),
            ("2016.02.08.0000.0001", Some("2015.11.28.0000.0001")),
            ("2016.03.16.0000.0001", Some("2016.02.08.0000.0001")),
            ("2016.03.25.0000.0001", Some("2016.03.16.0000.0001")),
            ("2016.05.21.0000.0001", Some("2016.03.25.0000.0001")),
            ("2016.07.05.0000.0001", Some("2016.05.21.0000.0001")),
            ("2016.07.21.0000.0001", Some("2016.07.05.0000.0001")),
            ("2016.07.22.0000.0000", Some("2016.07.21.0000.0001")),
            ("2016.08.07.0000.0001", Some("2016.07.22.0000.0000")),
            ("2016.08.08.0000.0000", Some("2016.08.07.0000.0001")),
            ("2016.09.10.0000.0000", Some("2016.08.08.0000.0000")),
            ("2016.09.20.0000.0001", Some("2016.09.10.0000.0000")),
            ("2016.09.21.0000.0000", Some("2016.09.20.0000.0001")),
            ("2016.10.02.0000.0001", Some("2016.09.21.0000.0000")),
            ("2016.10.03.0000.0000", Some("2016.10.02.0000.0001")),
            ("2016.10.10.0000.0001", Some("2016.10.03.0000.0000")),
            ("2016.10.11.0000.0000", Some("2016.10.10.0000.0001")),
            ("2016.10.21.0000.0000", Some("2016.10.11.0000.0000")),
            ("2016.10.25.0000.0001", Some("2016.10.21.0000.0000")),
            ("2016.10.26.0000.0000", Some("2016.10.25.0000.0001")),
            ("2016.11.10.0000.0000", Some("2016.10.26.0000.0000")),
            ("2016.11.11.0000.0000", Some("2016.11.10.0000.0000")),
            ("2016.12.08.0000.0000", Some("2016.11.11.0000.0000")),
            ("2016.12.17.0000.0000", Some("2016.12.08.0000.0000")),
            ("2017.01.10.0000.0001", Some("2016.12.17.0000.0000")),
            ("2017.01.11.0000.0000", Some("2017.01.10.0000.0001")),
            ("2017.01.24.0000.0000", Some("2017.01.11.0000.0000")),
            ("2017.01.31.0000.0000", Some("2017.01.24.0000.0000")),
            ("2017.02.09.0000.0000", Some("2017.01.31.0000.0000")),
            ("2017.02.14.0000.0001", Some("2017.02.09.0000.0000")),
            ("2017.02.22.0000.0001", Some("2017.02.14.0000.0001")),
            ("2017.02.22.0001.0000", Some("2017.02.22.0000.0001")),
            ("2017.03.03.0000.0000", Some("2017.02.22.0001.0000")),
            ("2017.03.04.0000.0000", Some("2017.03.03.0000.0000")),
            ("2017.03.12.0000.0001", Some("2017.03.04.0000.0000")),
            ("2017.03.13.0000.0000", Some("2017.03.12.0000.0001")),
            ("2017.03.17.0000.0000", Some("2017.03.13.0000.0000")),
            ("2017.03.22.0000.0001", Some("2017.03.17.0000.0000")),
            ("2017.03.23.0000.0000", Some("2017.03.22.0000.0001")),
            ("2017.04.13.0000.0001", Some("2017.03.23.0000.0000")),
            ("2017.05.26.0000.0000", Some("2017.04.13.0000.0001")),
            ("2017.05.26.0001.0000", Some("2017.05.26.0000.0000")),
        ])
    } else if slug == "6b936f08"@ {
        Some(seq![
            ("2024.05.31.0000.0000", Some("H2024.05.31.0000.0000d")),
            ("2017.06.01.0000.0001", Some("H2017.06.01.0000.0001c")),
            ("2015.03.16.0000.0000", None),
            ("2015.05.26.0000.0000", Some("2015.03.16.0000.0000")),
            ("2015.05.26.0001.0000", Some("2015.05.26.0000.0000")),
            ("2015.07.03.0000.0002", Some("2015.05.26.0001.0000")),
            ("2015.08.20.0000.0001", Some("2015.07.03.0000.0002")),
            ("2015.10.27.0000.0000", Some("H2015.10.27.0000.0000b")),
            ("H2015.10.27.0000.0000b", Some("H2015.10.27.0000.0000a")),
            ("H2015.10.27.0000.0000a", None),
            ("2016.02.08.0000.0001", Some("2015.10.27.0000.0000")),
            ("2016.05.21.0000.0001", Some("2016.02.08.0000.0001")),
            ("2016.09.10.0000.0001", Some("2016.05.21.0000.0001")),
            ("2016.12.17.0000.0001", Some("2016.09.10.0000.0001")),
            ("2022.03.25.0000.0000", Some("2021.11.21.0000.0001")),
            ("2022.03.27.0000.0000", Some("2022.03.25.0000.0000")),
        ])
    } else if slug == "f29a3eb2"@ {
        Some(seq![
            ("2024.05.31.0000.0000", Some("H2024.05.31.0000.0000e")),
            ("2017.03.18.0000.0000", None),
            ("2017.05.26.0000.0000", Some("2017.03.18.0000.0000")),
            ("2017.05.26.0001.0000", Some("2017.05.26.0000.0000")),
            ("2017.05.26.0002.0000", Some("2017.05.26.0001.0000")),
            ("2017.06.27.0000.0001", Some("2017.05.26.0002.0000")),
            ("2017.09.24.0000.0001", Some("2017.06.27.0000.0001")),
            ("2018.01.12.0000.0001", Some("2017.09.24.0000.0001")),
            ("2018.02.23.0000.0001", Some("2018.01.12.0000.0001")),
            ("2018.04.27.0000.0001", Some("2018.02.23.0000.0001")),
            ("2018.07.18.0000.0001", Some("2018.04.27.0000.0001")),
            ("2018.09.05.0000.0001", Some("2018.07.18.0000.0001")),
            ("2018.12.14.0000.0001", Some("2018.09.05.0000.0001")),
            ("2019.01.26.0000.0001", Some("2018.12.14.0000.0001")),
            ("2019.03.12.0000.0001", Some("2019.01.26.0000.0001")),
            ("2019.05.29.0000.0001", Some("2019.03.12.0000.0001")),
            ("2019.12.04.0000.0001", Some("2019.05.29.0000.0001")),
            ("2020.09.17.0000.0001", Some("2019.12.04.0000.0001")),
            ("2021.01.15.0000.0001", Some("2020.09.17.0000.0001")),
            ("2021.11.17.0000.0001", Some("2021.01.15.0000.0001")),
            ("2022.05.26.0000.0001", Some("2021.11.17.0000.0001")),
            ("2022.08.16.0000.0001", Some("2022.05.26.0000.0001")),
            ("2022.12.23.0000.0001", Some("2022.08.16.0000.0001")),
            ("2023.04.28.0000.0001", Some("2022.12.23.0000.0001")),
            ("2023.12.12.0000.0000", Some("2023.04.28.0000.0001")),
            ("2024.04.23.0000.0001", Some("2023.12.12.0000.0000")),
            ("2024.05.25.0000.0000", Some("2024.04.23.0000.0001")),
            ("2024.05.25.0001.0000", Some("2024.05.25.0000.0000")),
            ("2024.05.25.0002.0000", Some("2024.05.25.0001.0000")),
            ("2024.05.25.0003.0000", Some("2024.05.25.0002.0000")),
            ("2024.05.30.0000.0001", Some("2024.05.25.0003.0000")),
            ("2021.12.14.0000.0001", Some("2021.11.17.0000.0001")),
            ("2022.03.25.0000.0000", Some("2021.12.14.0000.0001")),
        ])
    } else if slug == "859d0e24"@ {
        Some(seq![
            ("2024.05.31.0000.0000", Some("H2024.05.31.0000.0000g")),
            ("2022.03.27.0000.0000", Some("2022.03.25.0000.0001")),
            ("2022.03.25.0000.0001", Some("2021.11.21.0000.0001")),
            ("2019.04.02.0000.0000", None),
        ])
    } else if slug == "1bf99b87"@ {
        Some(seq![
            ("2024.05.31.0000.0000", Some("H2024.05.31.0000.0000i")),
            ("2022.04.02.0000.0000", Some("2022.04.01.0000.0001")),
            ("2022.04.19.0000.0000", Some("2022.04.02.0000.0000")),
            ("2022.04.01.0000.0001", Some("2022.03.25.0001.0000")),
            ("2021.08.23.0000.0000", None),
        ])
    } else if slug == "de199059"@ {
        Some(seq![
            ("2024.11.02.0000.0000", Some("H2024.11.02.0000.0000ad")),
            ("H2024.11.02.0000.0000b", Some("H2024.11.02.0000.0000a")),
            ("H2024.11.02.0000.0000aa", Some("H2024.11.02.0000.0000z")),
            ("2022.04.18.0000.0001", Some("2022.04.11.0000.0001")),
            ("2021.04.29.0000.0001", Some("2021.04.20.0000.0001")),
            ("2021.04.30.0000.0000", None),
            ("2021.05.22.0000.0000", Some("2021.04.30.0000.0000")),
            ("2022.04.19.0000.0000", None),
            ("2015.06.08.0000.0000", None),
        ])
    } else if slug == "573d8c07"@ {
        Some(seq![
            ("2024.10.22.0002.0000", Some("H2024.10.22.0002.0000c")),
            ("2016.04.05.0000.0000", None),
        ])
    } else if slug == "ce34ddbd"@ {
        Some(seq![
            ("2024.10.22.0003.0000", Some("H2024.10.22.0003.0000e")),
            ("2017.09.04.0000.0000", None),
        ])
    } else if slug == "b933ed2b"@ {
        Some(seq![
            ("2024.11.02.0000.0000", Some("H2024.11.02.0000.0000f")),
            ("2024.11.19.0000.0000", Some("2024.11.08.0000.0000")),
            ("2019.08.21.0000.0000", None),
            ("2024.11.07.0000.0001", Some("H2024.11.02.0000.0000f")),
            ("2024.11.08.0000.0000", Some("2024.11.07.0000.0001")),
        ])
    } else if slug == "27577888"@ {
        Some(seq![
            ("2024.11.02.0000.0000", Some("H2024.11.02.0000.0000g")),
            ("2022.04.09.0000.0000", Some("2022.04.08.0003.0000")),
            ("2022.04.12.0000.0000", Some("2022.04.09.0000.0000")),
            ("2024.11.07.0000.0001", Some("H2024.11.02.0000.0000g")),
            ("2024.11.08.0000.0000", Some("2024.11.07.0000.0001")),
            ("2024.11.19.0000.0000", Some("2024.11.08.0000.0000")),
            ("2022.01.19.0000.0000", None),
        ])
    } else if slug == "c38effbc"@ {
        Some(seq![
            ("2024.09.09.0000.0000", Some("H2024.09.09.0000.0000ad")),
            ("H2024.09.09.0000.0000b", Some("H2024.09.09.0000.0000a")),
            ("H2024.09.09.0000.0000aa", Some("H2024.09.09.0000.0000z")),
            ("2014.03.24.0000.0000", None),
            ("2024.09.14.0000.0001", Some("H2024.09.09.0000.0000ad")),
            ("2024.09.16.0000.0000", Some("2024.09.14.0000.0001")),
        ])
    } else if slug == "77420d17"@ {
        Some(seq![
            ("2024.08.27.0002.0000", Some("H2024.08.27.0002.0000c")),
            ("2015.09.04.0000.0000", None),
        ])
    } else if slug == "ee4b5cad"@ {
        Some(seq![
            ("2024.08.27.0003.0000", Some("H2024.08.27.0003.0000e")),
            ("2017.06.20.0000.0000", None),
        ])
    } else if slug == "994c6c3b"@ {
        Some(seq![
            ("2024.09.09.0000.0000", Some("H2024.09.09.0000.0000f")),
            ("2019.07.31.0000.0000", None),
            ("2024.09.16.0000.0000", Some("2024.09.14.0000.0001")),
            ("2024.09.17.0000.0000", Some("2024.09.16.0000.0000")),
            ("2024.10.08.0000.0001", Some("2024.09.17.0000.0000")),
            ("2024.10.09.0000.0000", Some("2024.10.08.0000.0001")),
            ("2024.09.14.0000.0001", Some("H2024.09.09.0000.0000f")),
            ("2024.10.10.0000.0000", Some("2024.10.09.0000.0000")),
        ])
    } else if slug == "0728f998"@ {
        Some(seq![
            ("2024.09.09.0000.0000", Some("H2024.09.09.0000.0000g")),
            ("2022.01.19.0000.0000", None),
            ("2024.09.14.0000.0001", Some("H2024.09.09.0000.0000g")),
            ("2024.09.16.0000.0000", Some("2024.09.14.0000.0001")),
            ("2024.09.17.0000.0000", Some("2024.09.16.0000.0000")),
            ("2024.10.08.0000.0001", Some("2024.09.17.0000.0000")),
            ("2024.10.09.0000.0000", Some("2024.10.08.0000.0001")),
            ("2024.10.10.0000.0000", Some("2024.10.09.0000.0000")),
        ])
    } else if slug == "2b5cbc63"@ {
        Some(seq![
            ("2013.06.18.0000.0000", None),
        ])
    } else if slug == "5050481e"@ {
        Some(seq![
            ("2024.10.09.0000.0000", None),
        ])
    } else if slug == "6cfeab11"@ {
        Some(seq![
            ("2024.05.20.0000.0000", None),
        ])
    } else if slug == "702fc90e"@ {
        Some(seq![
            ("2024.08.19.0000.0000", None),
        ])
    } else {
        None
    }
}

/// The repositories the override table has entries for.
pub open spec fn override_slugs() -> Seq<&'static str> {
    seq!["4e9a232b", "6b936f08", "f29a3eb2", "859d0e24", "1bf99b87", "de199059", "573d8c07", "ce34ddbd", "b933ed2b", "27577888", "c38effbc", "77420d17", "ee4b5cad", "994c6c3b", "0728f998", "2b5cbc63", "5050481e", "6cfeab11", "702fc90e"]
}

/// The override entries of a repository, if it has any.
pub fn override_text(slug: &str) -> (r: Option<Vec<(&'static str, Option<&'static str>)>>)
    ensures
        r is None <==> override_entries(slug@) is None,
        r matches Some(v) ==> override_entries(slug@) == Some(v@),
{
    if compare_str(slug, "4e9a232b") == 0 {
        return Some(vec![
            ("2026.08.19.0000.0000", Some("2026.08.11.0000.0000")),
            ("2026.08.31.0000.0000", Some("2026.08.19.0000.0000")),
            ("2026.09.01.0000.0000", Some("2026.08.31.0000.0000")),
            ("2024.05.31.0000.0000", Some("H2024.05.31.0000.0000ag")),
            ("H2024.05.31.0000.0000b", Some("H2024.05.31.0000.0000a")),
            ("H2024.05.31.0000.0000aa", Some("H2024.05.31.0000.0000z")),
            ("2024.04.23.0000.0000", Some("2024.04.22.0000.0001")),
            ("2024.04.22.0000.0001", Some("2024.03.27.0000.0000")),
            ("2023.06.14.0000.0000", Some("2023.06.13.0000.0001")),
            ("2023.06.13.0000.0001", Some("2023.05.11.0000.0001")),
            ("2017.06.06.0000.0001", Some("H2017.06.06.0000.0001m")),
            ("H2017.06.06.0000.0001a", None),
            ("2013.06.29.0000.0000", None),
            ("2013.06.29.0001.0000", Some("2013.06.29.0000.0000")),
            ("2013.06.29.0002.0000", Some("2013.06.29.0001.0000")),
            ("2013.06.29.0003.0000", Some("2013.06.29.0002.0000")),
            ("2013.06.29.0004.0000", Some("2013.06.29.0003.0000")),
            ("2013.08.09.0000.0000", Some("2013.06.29.0004.0000")),
            ("2013.08.09.0001.0000", Some("2013.08.09.0000.0000")),
            ("2013.11.26.0000.0002", Some("2013.08.09.0001.0000")),
            ("2013.12.05.0000.0000", Some("2013.11.26.0000.0002")),
            ("2013.12.05.0001.0000", Some("2013.12.05.0000.0000")),
            ("2014.03.06.0000.0002", Some("2013.12.05.0001.0000")),
            ("2014.05.12.0000.0002", Some("2014.03.06.0000.0002")),
            ("2014.05.27.0000.0000", Some("H2014.05.27.0000.0000g")),
            ("H2014.05.27.0000.0000g", Some("H2014.05.27.0000.0000f")),
            ("H2014.05.27.0000.0000f", Some("H2014.05.27.0000.0000e")),
            ("H2014.05.27.0000.0000e", Some("H2014.05.27.0000.0000d")),
            ("H2014.05.27.0000.0000d", Some("H2014.05.27.0000.0000c")),
            ("H2014.05.27.0000.0000c", Some("H2014.05.27.0000.0000b")),
            ("H2014.05.27.0000.0000b", Some("H2014.05.27.0000.0000a")),
            ("H2014.05.27.0000.0000a", None),
            ("2014.06.21.0000.0001", Some("2014.05.27.0000.0000")),
            ("2014.06.25.0000.0000", Some("2014.06.21.0000.0001")),
            ("2014.06.25.0001.0000", Some("2014.06.25.0000.0000")),
            ("2014.10.03.0000.0002", Some("2014.06.25.0001.0000")),
            ("2014.10.17.0000.0000", Some("2014.10.03.0000.0002")),
            ("2014.10.17.0001.0000", Some("2014.10.17.0000.0000")),
            ("2015.02.10.0000.0001", Some("2014.10.17.0001.0000")),
            ("2015.05.20.0000.0002", Some("2015.02.10.0000.0001")),
            ("2015.05.26.0000.0000", Some("2015.05.20.0000.0002")),
            ("2015.05.26.0001.0000", Some("2015.05.26.0000.0000")),
            ("2015.05.26.0002.0000", Some("2015.05.26.0001.0000")),
            ("2015.07.25.0000.0002", Some("2015.05.26.0002.0000")),
            ("2015.10.27.0000.0001", Some("2015.07.25.0000.0002")),
            ("2015.11.14.0000.0001", Some("2015.10.27.0000.0001")),
            ("2015.11.28.0000.0001", Some("2015.11.14.0000.0001")),
            ("2016.02.08.0000.0001", Some("2015.11.28.0000.0001")),
            ("2016.03.16.0000.0001", Some("2016.02.08.0000.0001")),
            ("2016.03.25.0000.0001", Some("2016.03.16.0000.0001")),
            ("2016.05.21.0000.0001", Some("2016.03.25.0000.0001")),
            ("2016.07.05.0000.0001", Some("2016.05.21.0000.0001")),
            ("2016.07.21.0000.0001", Some("2016.07.05.0000.0001")),
            ("2016.07.22.0000.0000", Some("2016.07.21.0000.0001")),
            ("2016.08.07.0000.0001", Some("2016.07.22.0000.0000")),
            ("2016.08.08.0000.0000", Some("2016.08.07.0000.0001")),
            ("2016.09.10.0000.0000", Some("2016.08.08.0000.0000")),
            ("2016.09.20.0000.0001", Some("2016.09.10.0000.0000")),
            ("2016.09.21.0000.0000", Some("2016.09.20.0000.0001")),
            ("2016.10.02.0000.0001", Some("2016.09.21.0000.0000")),
            ("2016.10.03.0000.0000", Some("2016.10.02.0000.0001")),
            ("2016.10.10.0000.0001", Some("2016.10.03.0000.0000")),
            ("2016.10.11.0000.0000", Some("2016.10.10.0000.0001")),
            ("2016.10.21.0000.0000", Some("2016.10.11.0000.0000")),
            ("2016.10.25.0000.0001", Some("2016.10.21.0000.0000")),
            ("2016.10.26.0000.0000", Some("2016.10.25.0000.0001")),
            ("2016.11.10.0000.0000", Some("2016.10.26.0000.0000")),
            ("2016.11.11.0000.0000", Some("2016.11.10.0000.0000")),
            ("2016.12.08.0000.0000", Some("2016.11.11.0000.0000")),
            ("2016.12.17.0000.0000", Some("2016.12.08.0000.0000")),
            ("2017.01.10.0000.0001", Some("2016.12.17.0000.0000")),
            ("2017.01.11.0000.0000", Some("2017.01.10.0000.0001")),
            ("2017.01.24.0000.0000", Some("2017.01.11.0000.0000")),
            ("2017.01.31.0000.0000", Some("2017.01.24.0000.0000")),
            ("2017.02.09.0000.0000", Some("2017.01.31.0000.0000")),
            ("2017.02.14.0000.0001", Some("2017.02.09.0000.0000")),
            ("2017.02.22.0000.0001", Some("2017.02.14.0000.0001")),
            ("2017.02.22.0001.0000", Some("2017.02.22.0000.0001")),
            ("2017.03.03.0000.0000", Some("2017.02.22.0001.0000")),
            ("2017.03.04.0000.0000", Some("2017.03.03.0000.0000")),
            ("2017.03.12.0000.0001", Some("2017.03.04.0000.0000")),
            ("2017.03.13.0000.0000", Some("2017.03.12.0000.0001")),
            ("2017.03.17.0000.0000", Some("2017.03.13.0000.0000")),
            ("2017.03.22.0000.0001", Some("2017.03.17.0000.0000")),
            ("2017.03.23.0000.0000", Some("2017.03.22.0000.0001")),
            ("2017.04.13.0000.0001", Some("2017.03.23.0000.0000")),
            ("2017.05.26.0000.0000", Some("2017.04.13.0000.0001")),
            ("2017.05.26.0001.0000", Some("2017.05.26.0000.0000")),
        ]);
    }
    if compare_str(slug, "6b936f08") == 0 {
        return Some(vec![
            ("2024.05.31.0000.0000", Some("H2024.05.31.0000.0000d")),
            ("2017.06.01.0000.0001", Some("H2017.06.01.0000.0001c")),
            ("2015.03.16.0000.0000", None),
            ("2015.05.26.0000.0000", Some("2015.03.16.0000.0000")),
            ("2015.05.26.0001.0000", Some("2015.05.26.0000.0000")),
            ("2015.07.03.0000.0002", Some("2015.05.26.0001.0000")),
            ("2015.08.20.0000.0001", Some("2015.07.03.0000.0002")),
            ("2015.10.27.0000.0000", Some("H2015.10.27.0000.0000b")),
            ("H2015.10.27.0000.0000b", Some("H2015.10.27.0000.0000a")),
            ("H2015.10.27.0000.0000a", None),
            ("2016.02.08.0000.0001", Some("2015.10.27.0000.0000")),
            ("2016.05.21.0000.0001", Some("2016.02.08.0000.0001")),
            ("2016.09.10.0000.0001", Some("2016.05.21.0000.0001")),
            ("2016.12.17.0000.0001", Some("2016.09.10.0000.0001")),
            ("2022.03.25.0000.0000", Some("2021.11.21.0000.0001")),
            ("2022.03.27.0000.0000", Some("2022.03.25.0000.0000")),
        ]);
    }
    if compare_str(slug, "f29a3eb2") == 0 {
        return Some(vec![
            ("2024.05.31.0000.0000", Some("H2024.05.31.0000.0000e")),
            ("2017.03.18.0000.0000", None),
            ("2017.05.26.0000.0000", Some("2017.03.18.0000.0000")),
            ("2017.05.26.0001.0000", Some("2017.05.26.0000.0000")),
            ("2017.05.26.0002.0000", Some("2017.05.26.0001.0000")),
            ("2017.06.27.0000.0001", Some("2017.05.26.0002.0000")),
            ("2017.09.24.0000.0001", Some("2017.06.27.0000.0001")),
            ("2018.01.12.0000.0001", Some("2017.09.24.0000.0001")),
            ("2018.02.23.0000.0001", Some("2018.01.12.0000.0001")),
            ("2018.04.27.0000.0001", Some("2018.02.23.0000.0001")),
            ("2018.07.18.0000.0001", Some("2018.04.27.0000.0001")),
            ("2018.09.05.0000.0001", Some("2018.07.18.0000.0001")),
            ("2018.12.14.0000.0001", Some("2018.09.05.0000.0001")),
            ("2019.01.26.0000.0001", Some("2018.12.14.0000.0001")),
            ("2019.03.12.0000.0001", Some("2019.01.26.0000.0001")),
            ("2019.05.29.0000.0001", Some("2019.03.12.0000.0001")),
            ("2019.12.04.0000.0001", Some("2019.05.29.0000.0001")),
            ("2020.09.17.0000.0001", Some("2019.12.04.0000.0001")),
            ("2021.01.15.0000.0001", Some("2020.09.17.0000.0001")),
            ("2021.11.17.0000.0001", Some("2021.01.15.0000.0001")),
            ("2022.05.26.0000.0001", Some("2021.11.17.0000.0001")),
            ("2022.08.16.0000.0001", Some("2022.05.26.0000.0001")),
            ("2022.12.23.0000.0001", Some("2022.08.16.0000.0001")),
            ("2023.04.28.0000.0001", Some("2022.12.23.0000.0001")),
            ("2023.12.12.0000.0000", Some("2023.04.28.0000.0001")),
            ("2024.04.23.0000.0001", Some("2023.12.12.0000.0000")),
            ("2024.05.25.0000.0000", Some("2024.04.23.0000.0001")),
            ("2024.05.25.0001.0000", Some("2024.05.25.0000.0000")),
            ("2024.05.25.0002.0000", Some("2024.05.25.0001.0000")),
            ("2024.05.25.0003.0000", Some("2024.05.25.0002.0000")),
            ("2024.05.30.0000.0001", Some("2024.05.25.0003.0000")),
            ("2021.12.14.0000.0001", Some("2021.11.17.0000.0001")),
            ("2022.03.25.0000.0000", Some("2021.12.14.0000.0001")),
        ]);
    }
    if compare_str(slug, "859d0e24") == 0 {
        return Some(vec![
            ("2024.05.31.0000.0000", Some("H2024.05.31.0000.0000g")),
            ("2022.03.27.0000.0000", Some("2022.03.25.0000.0001")),
            ("2022.03.25.0000.0001", Some("2021.11.21.0000.0001")),
            ("2019.04.02.0000.0000", None),
        ]);
    }
    if compare_str(slug, "1bf99b87") == 0 {
        return Some(vec![
            ("2024.05.31.0000.0000", Some("H2024.05.31.0000.0000i")),
            ("2022.04.02.0000.0000", Some("2022.04.01.0000.0001")),
            ("2022.04.19.0000.0000", Some("2022.04.02.0000.0000")),
            ("2022.04.01.0000.0001", Some("2022.03.25.0001.0000")),
            ("2021.08.23.0000.0000", None),
        ]);
    }
    if compare_str(slug, "de199059") == 0 {
        return Some(vec![
            ("2024.11.02.0000.0000", Some("H2024.11.02.0000.0000ad")),
            ("H2024.11.02.0000.0000b", Some("H2024.11.02.0000.0000a")),
            ("H2024.11.02.0000.0000aa", Some("H2024.11.02.0000.0000z")),
            ("2022.04.18.0000.0001", Some("2022.04.11.0000.0001")),
            ("2021.04.29.0000.0001", Some("2021.04.20.0000.0001")),
            ("2021.04.30.0000.0000", None),
            ("2021.05.22.0000.0000", Some("2021.04.30.0000.0000")),
            ("2022.04.19.0000.0000", None),
            ("2015.06.08.0000.0000", None),
        ]);
    }
    if compare_str(slug, "573d8c07") == 0 {
        return Some(vec![
            ("2024.10.22.0002.0000", Some("H2024.10.22.0002.0000c")),
            ("2016.04.05.0000.0000", None),
        ]);
    }
    if compare_str(slug, "ce34ddbd") == 0 {
        return Some(vec![
            ("2024.10.22.0003.0000", Some("H2024.10.22.0003.0000e")),
            ("2017.09.04.0000.0000", None),
        ]);
    }
    if compare_str(slug, "b933ed2b") == 0 {
        return Some(vec![
            ("2024.11.02.0000.0000", Some("H2024.11.02.0000.0000f")),
            ("2024.11.19.0000.0000", Some("2024.11.08.0000.0000")),
            ("2019.08.21.0000.0000", None),
            ("2024.11.07.0000.0001", Some("H2024.11.02.0000.0000f")),
            ("2024.11.08.0000.0000", Some("2024.11.07.0000.0001")),
        ]);
    }
    if compare_str(slug, "27577888") == 0 {
        return Some(vec![
            ("2024.11.02.0000.0000", Some("H2024.11.02.0000.0000g")),
            ("2022.04.09.0000.0000", Some("2022.04.08.0003.0000")),
            ("2022.04.12.0000.0000", Some("2022.04.09.0000.0000")),
            ("2024.11.07.0000.0001", Some("H2024.11.02.0000.0000g")),
            ("2024.11.08.0000.0000", Some("2024.11.07.0000.0001")),
            ("2024.11.19.0000.0000", Some("2024.11.08.0000.0000")),
            ("2022.01.19.0000.0000", None),
        ]);
    }
    if compare_str(slug, "c38effbc") == 0 {
        return Some(vec![
            ("2024.09.09.0000.0000", Some("H2024.09.09.0000.0000ad")),
            ("H2024.09.09.0000.0000b", Some("H2024.09.09.0000.0000a")),
            ("H2024.09.09.0000.0000aa", Some("H2024.09.09.0000.0000z")),
            ("2014.03.24.0000.0000", None),
            ("2024.09.14.0000.0001", Some("H2024.09.09.0000.0000ad")),
            ("2024.09.16.0000.0000", Some("2024.09.14.0000.0001")),
        ]);
    }
    if compare_str(slug, "77420d17") == 0 {
        return Some(vec![
            ("2024.08.27.0002.0000", Some("H2024.08.27.0002.0000c")),
            ("2015.09.04.0000.0000", None),
        ]);
    }
    if compare_str(slug, "ee4b5cad") == 0 {
        return Some(vec![
            ("2024.08.27.0003.0000", Some("H2024.08.27.0003.0000e")),
            ("2017.06.20.0000.0000", None),
        ]);
    }
    if compare_str(slug, "994c6c3b") == 0 {
        return Some(vec![
            ("2024.09.09.0000.0000", Some("H2024.09.09.0000.0000f")),
            ("2019.07.31.0000.0000", None),
            ("2024.09.16.0000.0000", Some("2024.09.14.0000.0001")),
            ("2024.09.17.0000.0000", Some("2024.09.16.0000.0000")),
            ("2024.10.08.0000.0001", Some("2024.09.17.0000.0000")),
            ("2024.10.09.0000.0000", Some("2024.10.08.0000.0001")),
            ("2024.09.14.0000.0001", Some("H2024.09.09.0000.0000f")),
            ("2024.10.10.0000.0000", Some("2024.10.09.0000.0000")),
        ]);
    }
    if compare_str(slug, "0728f998") == 0 {
        return Some(vec![
            ("2024.09.09.0000.0000", Some("H2024.09.09.0000.0000g")),
            ("2022.01.19.0000.0000", None),
            ("2024.09.14.0000.0001", Some("H2024.09.09.0000.0000g")),
            ("2024.09.16.0000.0000", Some("2024.09.14.0000.0001")),
            ("2024.09.17.0000.0000", Some("2024.09.16.0000.0000")),
            ("2024.10.08.0000.0001", Some("2024.09.17.0000.0000")),
            ("2024.10.09.0000.0000", Some("2024.10.08.0000.0001")),
            ("2024.10.10.0000.0000", Some("2024.10.09.0000.0000")),
        ]);
    }
    if compare_str(slug, "2b5cbc63") == 0 {
        return Some(vec![
            ("2013.06.18.0000.0000", None),
        ]);
    }
    if compare_str(slug, "5050481e") == 0 {
        return Some(vec![
            ("2024.10.09.0000.0000", None),
        ]);
    }
    if compare_str(slug, "6cfeab11") == 0 {
        return Some(vec![
            ("2024.05.20.0000.0000", None),
        ]);
    }
    if compare_str(slug, "702fc90e") == 0 {
        return Some(vec![
            ("2024.08.19.0000.0000", None),
        ]);
    }
    None
}

/// The repositories the override table has entries for, in table order.
pub fn override_slug_list() -> (r: Vec<&'static str>)
    ensures
        r@ == override_slugs(),
{
    vec!["4e9a232b", "6b936f08", "f29a3eb2", "859d0e24", "1bf99b87", "de199059", "573d8c07", "ce34ddbd", "b933ed2b", "27577888", "c38effbc", "77420d17", "ee4b5cad", "994c6c3b", "0728f998", "2b5cbc63", "5050481e", "6cfeab11", "702fc90e"]
}

} // verus!
